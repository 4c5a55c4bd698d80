//! Árbol de decisión para interpretar pistas de texto.
//!
//! Cada nodo interno guarda una palabra clave en minúsculas; la
//! interpretación baja por la rama verdadera cuando la pista, pasada a
//! minúsculas, contiene esa palabra, y por la falsa en caso contrario.
//! Una hoja devuelve su índice de resultado sin mirar la pista.

use vstd::prelude::*;

verus! {

/// Lo que devuelve `str::to_lowercase` sobre una sucesión de caracteres:
/// depende solo de esos caracteres, así que lleva nombre propio.
pub uninterp spec fn minusculas_de(s: Seq<char>) -> Seq<char>;

/// Se apoya en `str::to_lowercase`: el resultado es el equivalente en
/// minúsculas del texto y depende de sus caracteres solamente.
#[verifier::external_body]
fn a_minusculas(s: &str) -> (r: String)
    ensures
        r@ == minusculas_de(s@),
{
    s.to_lowercase()
}

/// `aguja` aparece como subcadena contigua de `pajar`.
pub open spec fn es_subcadena(aguja: Seq<char>, pajar: Seq<char>) -> bool {
    exists|i: int|
        0 <= i && i + aguja.len() <= pajar.len() && (#[trigger] pajar.subrange(i, i + aguja.len()))
            == aguja
}

/// Se apoya en `str::contains`: devuelve verdadero exactamente cuando el
/// patrón aparece como subcadena del texto.
#[verifier::external_body]
fn contiene_texto(pajar: &str, aguja: &str) -> (r: bool)
    ensures
        r == es_subcadena(aguja@, pajar@),
{
    pajar.contains(aguja)
}

/// Nodo del árbol de decisión.
///
/// - `texto_clave`: palabra o frase clave, en minúsculas, que se busca
///   dentro de la pista.
/// - `hija_verdadero` y `hija_falso`: subárboles según la pista contenga o
///   no esa palabra; una rama ausente corta la interpretación sin resultado.
/// - `resultado`: `Some(índice)` si el nodo es hoja, `None` si es interno.
#[derive(Debug)]
pub struct NodoDecision {
    pub texto_clave: String,
    pub hija_verdadero: Option<Box<NodoDecision>>,
    pub hija_falso: Option<Box<NodoDecision>>,
    pub resultado: Option<usize>,
}

impl NodoDecision {
    /// Qué índice sugiere el árbol para una pista dada: en una hoja, su
    /// resultado; en un nodo interno, el de la rama que la pista elige, o
    /// nada si esa rama falta.
    pub open spec fn interpretar_spec(self, pista: Seq<char>) -> Option<usize>
        decreases self,
    {
        match self.resultado {
            Some(res) => Some(res),
            None => {
                if es_subcadena(self.texto_clave@, minusculas_de(pista)) {
                    match self.hija_verdadero {
                        Some(v) => v.interpretar_spec(pista),
                        None => None,
                    }
                } else {
                    match self.hija_falso {
                        Some(f) => f.interpretar_spec(pista),
                        None => None,
                    }
                }
            },
        }
    }

    /// Crea un nodo hoja con un índice de resultado.
    pub fn nueva_hoja(resultado: usize) -> (n: NodoDecision)
        ensures
            n.texto_clave@ == Seq::<char>::empty(),
            n.hija_verdadero is None,
            n.hija_falso is None,
            n.resultado == Some(resultado),
            forall|pista: Seq<char>| n.interpretar_spec(pista) == Some(resultado),
    {
        NodoDecision {
            texto_clave: String::new(),
            hija_verdadero: None,
            hija_falso: None,
            resultado: Some(resultado),
        }
    }

    /// Crea un nodo interno con palabra clave `clave`, pasada a minúsculas,
    /// que apunta a dos subárboles opcionales.
    pub fn nuevo_nodo(clave: &str, hija_v: Option<NodoDecision>, hija_f: Option<NodoDecision>) -> (n:
        NodoDecision)
        ensures
            n.texto_clave@ == minusculas_de(clave@),
            n.resultado is None,
            match hija_v {
                Some(t) => n.hija_verdadero matches Some(b) && *b == t,
                None => n.hija_verdadero is None,
            },
            match hija_f {
                Some(t) => n.hija_falso matches Some(b) && *b == t,
                None => n.hija_falso is None,
            },
    {
        let hv = match hija_v {
            Some(t) => Some(Box::new(t)),
            None => None,
        };
        let hf = match hija_f {
            Some(t) => Some(Box::new(t)),
            None => None,
        };
        NodoDecision {
            texto_clave: a_minusculas(clave),
            hija_verdadero: hv,
            hija_falso: hf,
            resultado: None,
        }
    }

    /// Recorre el árbol con la pista (en mayúsculas o minúsculas) y devuelve
    /// `Some(índice)` si llegó a una hoja, o `None` si la rama elegida falta.
    pub fn interpretar(&self, pista_texto: &str) -> (r: Option<usize>)
        ensures
            r == self.interpretar_spec(pista_texto@),
        decreases *self,
    {
        if let Some(res) = self.resultado {
            return Some(res);
        }
        let pista_lower = a_minusculas(pista_texto);
        if contiene_texto(pista_lower.as_str(), self.texto_clave.as_str()) {
            match &self.hija_verdadero {
                Some(v) => v.interpretar(pista_texto),
                None => None,
            }
        } else {
            match &self.hija_falso {
                Some(f) => f.interpretar(pista_texto),
                None => None,
            }
        }
    }
}

/// El nodo es una hoja con resultado `idx`.
pub open spec fn es_hoja(n: NodoDecision, idx: usize) -> bool {
    n.resultado == Some(idx)
}

/// Árbol de pistas de ejemplo, con los índices de la caza del tesoro:
/// Beach 0, Cave 1, Mountain 2, Forest 3, Woods 4, Treasure 5.
///
/// La lógica, de arriba hacia abajo:
///  - si la pista contiene "brilla" → Beach (0);
///  - si no, si contiene "sol" → Cave (1);
///  - si no, si contiene "árbol" → Forest (3);
///  - si no, si contiene "murmullo" → Woods (4);
///  - si no, si contiene "cima" → Mountain (2);
///  - en último caso → Treasure (5).
pub fn construir_arbol_decision_ejemplo() -> (r: NodoDecision)
    ensures
        r.resultado is None,
        r.texto_clave@ == minusculas_de("brilla"@),
        r.hija_verdadero matches Some(h_beach) && es_hoja(*h_beach, 0),
        r.hija_falso matches Some(n_sol) && {
            &&& n_sol.resultado is None
            &&& n_sol.texto_clave@ == minusculas_de("sol"@)
            &&& n_sol.hija_verdadero matches Some(h_cave) && es_hoja(*h_cave, 1)
            &&& n_sol.hija_falso matches Some(n_arbol) && {
                &&& n_arbol.resultado is None
                &&& n_arbol.texto_clave@ == minusculas_de("árbol"@)
                &&& n_arbol.hija_verdadero matches Some(h_forest) && es_hoja(*h_forest, 3)
                &&& n_arbol.hija_falso matches Some(n_murmullo) && {
                    &&& n_murmullo.resultado is None
                    &&& n_murmullo.texto_clave@ == minusculas_de("murmullo"@)
                    &&& n_murmullo.hija_verdadero matches Some(h_woods) && es_hoja(*h_woods, 4)
                    &&& n_murmullo.hija_falso matches Some(n_cima) && {
                        &&& n_cima.resultado is None
                        &&& n_cima.texto_clave@ == minusculas_de("cima"@)
                        &&& n_cima.hija_verdadero matches Some(h_mountain) && es_hoja(
                            *h_mountain,
                            2,
                        )
                        &&& n_cima.hija_falso matches Some(h_treasure) && es_hoja(*h_treasure, 5)
                    }
                }
            }
        },
{
    let hoja_beach = NodoDecision::nueva_hoja(0);
    let hoja_cave = NodoDecision::nueva_hoja(1);
    let hoja_mountain = NodoDecision::nueva_hoja(2);
    let hoja_forest = NodoDecision::nueva_hoja(3);
    let hoja_woods = NodoDecision::nueva_hoja(4);
    let hoja_treasure = NodoDecision::nueva_hoja(5);

    let nodo_cima = NodoDecision::nuevo_nodo("cima", Some(hoja_mountain), Some(hoja_treasure));
    let nodo_murmullo = NodoDecision::nuevo_nodo("murmullo", Some(hoja_woods), Some(nodo_cima));
    let nodo_arbol = NodoDecision::nuevo_nodo("árbol", Some(hoja_forest), Some(nodo_murmullo));
    let nodo_sol = NodoDecision::nuevo_nodo("sol", Some(hoja_cave), Some(nodo_arbol));
    let nodo_brilla = NodoDecision::nuevo_nodo("brilla", Some(hoja_beach), Some(nodo_sol));

    nodo_brilla
}

/// Un árbol que es pura hoja decide solo: cualquier pista, contenga lo que
/// contenga, recibe el resultado de la hoja.
pub proof fn lema_hoja_decide_sola(arbol: NodoDecision, pista: Seq<char>)
    requires
        arbol.resultado is Some,
    ensures
        arbol.interpretar_spec(pista) == arbol.resultado,
{
}

} // verus!
