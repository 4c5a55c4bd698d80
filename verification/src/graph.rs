//! Grafo pesado no dirigido con lista de adyacencia y nombres por nodo.

use vstd::prelude::*;

verus! {

/// Cada arista conecta implícitamente el nodo `u` (su posición en la lista
/// de adyacencia) con `destino`, con un costo no negativo.
#[derive(Debug, Clone, Copy)]
pub struct Arista {
    pub destino: usize,
    pub costo: u32,
}

/// Grafo con lista de adyacencia.
/// - `nombres[i]` es el nombre del nodo `i`; la búsqueda por nombre recorre
///   esta lista.
/// - `adyacencia[i]` contiene todos los vecinos de `i`.
#[derive(Debug)]
pub struct Grafo {
    pub nombres: Vec<String>,
    pub adyacencia: Vec<Vec<Arista>>,
}

impl Grafo {
    /// Número de nodos del grafo.
    pub open spec fn n(self) -> nat {
        self.nombres@.len()
    }

    /// El grafo está bien formado: hay una lista de adyacencia por nodo y
    /// toda arista apunta a un nodo existente.
    pub open spec fn bien_formado(self) -> bool {
        &&& self.adyacencia@.len() == self.nombres@.len()
        &&& forall|i: int, k: int|
            0 <= i < self.adyacencia@.len() && 0 <= k < self.adyacencia@[i]@.len()
                ==> (#[trigger] self.adyacencia@[i]@[k]).destino < self.nombres@.len()
    }

    /// Crea un grafo de `n` nodos sin aristas y sin nombres; los nombres se
    /// agregan después, uno por nodo.
    pub fn new(n: usize) -> (g: Grafo)
        ensures
            g.nombres@.len() == 0,
            g.adyacencia@.len() == n,
            forall|i: int| 0 <= i < n ==> (#[trigger] g.adyacencia@[i])@.len() == 0,
    {
        let mut adyacencia: Vec<Vec<Arista>> = Vec::new();
        let mut i: usize = 0;
        while i < n
            invariant
                i <= n,
                adyacencia@.len() == i,
                forall|j: int| 0 <= j < i ==> (#[trigger] adyacencia@[j])@.len() == 0,
            decreases n - i,
        {
            adyacencia.push(Vec::new());
            i = i + 1;
        }
        Grafo { nombres: Vec::new(), adyacencia }
    }

    /// Agrega una arista no dirigida (bidireccional) entre `u` y `v` con peso
    /// `costo`: con ella queda también la arista de vuelta, con igual costo.
    pub fn agregar_arista_no_dirigida(&mut self, u: usize, v: usize, costo: u32)
        requires
            u < old(self).adyacencia@.len(),
            v < old(self).adyacencia@.len(),
        ensures
            final(self).nombres == old(self).nombres,
            final(self).adyacencia@.len() == old(self).adyacencia@.len(),
            u != v ==> final(self).adyacencia@[u as int]@ == old(self).adyacencia@[u as int]@.push(
                (Arista { destino: v, costo }),
            ),
            final(self).adyacencia@[v as int]@ == if u == v {
                old(self).adyacencia@[v as int]@.push((Arista { destino: v, costo })).push(
                    (Arista { destino: u, costo }),
                )
            } else {
                old(self).adyacencia@[v as int]@.push((Arista { destino: u, costo }))
            },
            forall|w: int|
                0 <= w < old(self).adyacencia@.len() && w != u && w != v
                    ==> #[trigger] final(self).adyacencia@[w] == old(self).adyacencia@[w],
            arista_existe(*final(self), u, v),
            arista_existe(*final(self), v, u),
            arista_con_costo_existe(*final(self), u, v, costo),
            arista_con_costo_existe(*final(self), v, u, costo),
    {
        let arista_ida = Arista { destino: v, costo };
        let arista_vuelta = Arista { destino: u, costo };
        self.adyacencia[u].push(arista_ida);
        self.adyacencia[v].push(arista_vuelta);
        proof {
            let g = *self;
            let lu = g.adyacencia@[u as int]@.len();
            let lv = g.adyacencia@[v as int]@.len();
            if u == v {
                assert(g.adyacencia@[u as int]@[lu - 2] == (Arista { destino: v, costo }));
                assert(g.adyacencia@[u as int]@[lu - 1] == (Arista { destino: u, costo }));
            } else {
                assert(g.adyacencia@[u as int]@[lu - 1] == (Arista { destino: v, costo }));
                assert(g.adyacencia@[v as int]@[lv - 1] == (Arista { destino: u, costo }));
            }
        }
    }

    /// Devuelve `Some(índice)` de la primera aparición de `nombre` entre los
    /// nombres del grafo, o `None` si no existe.
    pub fn indice_por_nombre(&self, nombre: &str) -> (r: Option<usize>)
        ensures
            match r {
                Some(i) => {
                    &&& i < self.nombres@.len()
                    &&& self.nombres@[i as int]@ == nombre@
                    &&& forall|j: int| 0 <= j < i ==> self.nombres@[j]@ != nombre@
                },
                None => forall|j: int| 0 <= j < self.nombres@.len() ==> self.nombres@[j]@ != nombre@,
            },
    {
        let buscado: String = nombre.to_owned();
        let mut i: usize = 0;
        while i < self.nombres.len()
            invariant
                i <= self.nombres@.len(),
                buscado@ == nombre@,
                forall|j: int| 0 <= j < i ==> self.nombres@[j]@ != nombre@,
            decreases self.nombres@.len() - i,
        {
            if self.nombres[i].eq(&buscado) {
                return Some(i);
            }
            i = i + 1;
        }
        None
    }
}

/// Hay alguna arista de `u` a `v`.
pub open spec fn arista_existe(g: Grafo, u: usize, v: usize) -> bool {
    &&& (u as int) < g.adyacencia@.len()
    &&& exists|k: int|
        0 <= k < g.adyacencia@[u as int]@.len() && (#[trigger] g.adyacencia@[u as int]@[k]).destino
            == v
}

/// Hay alguna arista de `u` a `v` con costo `costo`.
pub open spec fn arista_con_costo_existe(g: Grafo, u: usize, v: usize, costo: u32) -> bool {
    &&& (u as int) < g.adyacencia@.len()
    &&& exists|k: int|
        0 <= k < g.adyacencia@[u as int]@.len() && (#[trigger] g.adyacencia@[u as int]@[k]) == (Arista {
            destino: v,
            costo,
        })
}

} // verus!
