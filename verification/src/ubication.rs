//! Tabla de ubicaciones: una entrada por nodo del grafo, con la pista
//! textual, la sugerencia de siguiente nodo y la marca de visita.

use vstd::prelude::*;

verus! {

/// Información por cada nodo (índice):
/// - `pista`: el texto descriptivo de la ubicación.
/// - `next`: índice del siguiente nodo que sugiere esta pista, si lo hay.
/// - `visitado`: marca transitoria de una pasada de búsqueda.
#[derive(Debug, Clone)]
pub struct InfoUbicacion {
    pub pista: String,
    pub next: Option<usize>,
    pub visitado: bool,
}

/// Las ubicaciones son una lista con la entrada `i` para el nodo `i`.
pub type Ubicaciones = Vec<InfoUbicacion>;

/// La tabla cubre los `n` nodos y toda sugerencia apunta a un nodo existente.
pub open spec fn ubicaciones_validas(ubic: Seq<InfoUbicacion>, n: nat) -> bool {
    &&& ubic.len() == n
    &&& forall|i: int|
        0 <= i < ubic.len() ==> match (#[trigger] ubic[i]).next {
            Some(j) => (j as nat) < n,
            None => true,
        }
}

/// Crea una tabla de largo `n` con campos vacíos: sin pista, sin sugerencia
/// y sin marca de visita.
pub fn inicializar_ubicaciones_vacias(n: usize) -> (u: Ubicaciones)
    ensures
        u@.len() == n,
        forall|i: int|
            0 <= i < n ==> {
                &&& (#[trigger] u@[i]).pista@ == Seq::<char>::empty()
                &&& u@[i].next is None
                &&& u@[i].visitado == false
            },
        ubicaciones_validas(u@, n as nat),
{
    let mut v: Vec<InfoUbicacion> = Vec::new();
    let mut i: usize = 0;
    while i < n
        invariant
            i <= n,
            v@.len() == i,
            forall|j: int|
                0 <= j < i ==> {
                    &&& (#[trigger] v@[j]).pista@ == Seq::<char>::empty()
                    &&& v@[j].next is None
                    &&& v@[j].visitado == false
                },
        decreases n - i,
    {
        v.push(InfoUbicacion { pista: String::new(), next: None, visitado: false });
        i = i + 1;
    }
    v
}

} // verus!
