//! Caminos sobre el grafo: sucesiones de índices de nodos, su costo, y los
//! lemas que los motores de búsqueda comparten.

use vstd::prelude::*;
use vstd::set_lib::{lemma_int_range, lemma_len_subset, set_int_range};

use crate::graph::{arista_existe, Grafo};

verus! {

/// Cada par de elementos consecutivos está unido por una arista del grafo.
pub open spec fn es_camino(g: Grafo, p: Seq<usize>) -> bool {
    forall|i: int| 0 <= i < p.len() - 1 ==> #[trigger] arista_existe(g, p[i], p[i + 1])
}

/// Ningún elemento de `p` aparece en `bloqueados`.
pub open spec fn evita(p: Seq<usize>, bloqueados: Seq<usize>) -> bool {
    forall|i: int| 0 <= i < p.len() ==> !bloqueados.contains(#[trigger] p[i])
}

/// `p` es un camino simple de `desde` a `hasta`: no vacío, con extremos
/// dados, unido por aristas y sin nodos repetidos.
pub open spec fn camino_simple_hasta(g: Grafo, p: Seq<usize>, desde: usize, hasta: usize) -> bool {
    &&& p.len() >= 1
    &&& p[0] == desde
    &&& p.last() == hasta
    &&& es_camino(g, p)
    &&& p.no_duplicates()
}

/// Existe un camino simple de `desde` a `hasta` que no pisa `bloqueados`.
pub open spec fn existe_camino_simple_evitando(
    g: Grafo,
    desde: usize,
    hasta: usize,
    bloqueados: Seq<usize>,
) -> bool {
    exists|p: Seq<usize>| #[trigger] camino_simple_hasta(g, p, desde, hasta) && evita(p, bloqueados)
}

/// `p` es un camino no vacío que alguna elección de aristas realiza con
/// costo total `c`: cada paso elige una arista concreta de la lista de
/// adyacencia y suma su costo.
pub open spec fn es_camino_con_costo(g: Grafo, p: Seq<usize>, c: int) -> bool
    decreases p.len(),
{
    if p.len() == 0 {
        false
    } else if p.len() == 1 {
        (p[0] as int) < g.adyacencia@.len() && c == 0
    } else {
        &&& (p[0] as int) < g.adyacencia@.len()
        &&& exists|k: int|
            0 <= k < g.adyacencia@[p[0] as int]@.len() && (#[trigger] g.adyacencia@[p[0] as int]@[k]).destino
                == p[1] && es_camino_con_costo(
                g,
                p.drop_first(),
                c - g.adyacencia@[p[0] as int]@[k].costo,
            )
    }
}

/// Todo camino realizado de `inicio` a `hasta` cuesta al menos `cota`.
pub open spec fn cota_caminos(g: Grafo, inicio: usize, hasta: usize, cota: int) -> bool {
    forall|p: Seq<usize>, c: int|
        #[trigger] es_camino_con_costo(g, p, c) && p[0] == inicio && p.last() == hasta ==> c >= cota
}

/// En un grafo bien formado, todo nodo de un camino con costo es un índice
/// del grafo.
pub proof fn lema_ccc_indices(g: Grafo, p: Seq<usize>, c: int)
    requires
        g.bien_formado(),
        es_camino_con_costo(g, p, c),
    ensures
        forall|i: int| 0 <= i < p.len() ==> (#[trigger] p[i] as int) < g.adyacencia@.len(),
    decreases p.len(),
{
    if p.len() > 1 {
        let k = choose|k: int|
            0 <= k < g.adyacencia@[p[0] as int]@.len() && (#[trigger] g.adyacencia@[p[0] as int]@[k]).destino
                == p[1] && es_camino_con_costo(
                g,
                p.drop_first(),
                c - g.adyacencia@[p[0] as int]@[k].costo,
            );
        lema_ccc_indices(g, p.drop_first(), c - g.adyacencia@[p[0] as int]@[k].costo);
        assert forall|i: int| 0 <= i < p.len() implies (#[trigger] p[i] as int)
            < g.adyacencia@.len() by {
            if i >= 1 {
                assert(p.drop_first()[i - 1] == p[i]);
            }
        }
    }
}

/// El costo de todo camino es no negativo: las aristas pesan `u32`.
pub proof fn lema_ccc_no_negativo(g: Grafo, p: Seq<usize>, c: int)
    requires
        es_camino_con_costo(g, p, c),
    ensures
        c >= 0,
    decreases p.len(),
{
    if p.len() > 1 {
        let k = choose|k: int|
            0 <= k < g.adyacencia@[p[0] as int]@.len() && (#[trigger] g.adyacencia@[p[0] as int]@[k]).destino
                == p[1] && es_camino_con_costo(
                g,
                p.drop_first(),
                c - g.adyacencia@[p[0] as int]@[k].costo,
            );
        lema_ccc_no_negativo(g, p.drop_first(), c - g.adyacencia@[p[0] as int]@[k].costo);
    }
}

/// Quitar el último nodo de un camino con costo deja un camino con costo:
/// el que falta es el de alguna arista del penúltimo nodo al último.
pub proof fn lema_ccc_quitar_ultimo(g: Grafo, p: Seq<usize>, c: int)
    requires
        es_camino_con_costo(g, p, c),
        p.len() >= 2,
    ensures
        exists|k: int|
            0 <= k < g.adyacencia@[p[p.len() - 2] as int]@.len() && (#[trigger] g.adyacencia@[p[p.len()
                - 2] as int]@[k]).destino == p.last() && es_camino_con_costo(
                g,
                p.drop_last(),
                c - g.adyacencia@[p[p.len() - 2] as int]@[k].costo,
            ),
    decreases p.len(),
{
    let k0 = choose|k: int|
        0 <= k < g.adyacencia@[p[0] as int]@.len() && (#[trigger] g.adyacencia@[p[0] as int]@[k]).destino
            == p[1] && es_camino_con_costo(
            g,
            p.drop_first(),
            c - g.adyacencia@[p[0] as int]@[k].costo,
        );
    let w0 = g.adyacencia@[p[0] as int]@[k0].costo;
    if p.len() == 2 {
        assert(p.drop_last() =~= seq![p[0]]);
        assert(es_camino_con_costo(g, p.drop_first(), c - w0));
        assert(p.drop_first().len() == 1 && c - w0 == 0);
        assert(es_camino_con_costo(g, p.drop_last(), c - w0));
    } else {
        let q = p.drop_first();
        lema_ccc_quitar_ultimo(g, q, c - w0);
        let kk = choose|k: int|
            0 <= k < g.adyacencia@[q[q.len() - 2] as int]@.len() && (#[trigger] g.adyacencia@[q[q.len()
                - 2] as int]@[k]).destino == q.last() && es_camino_con_costo(
                g,
                q.drop_last(),
                (c - w0) - g.adyacencia@[q[q.len() - 2] as int]@[k].costo,
            );
        let wk = g.adyacencia@[q[q.len() - 2] as int]@[kk].costo;
        assert(q[q.len() - 2] == p[p.len() - 2]);
        assert(q.last() == p.last());
        assert(q.drop_last() =~= p.drop_last().drop_first());
        assert(p.drop_last()[0] == p[0] && p.drop_last()[1] == p[1]);
        assert(es_camino_con_costo(g, p.drop_last().drop_first(), (c - wk) - w0));
        assert(es_camino_con_costo(g, p.drop_last(), c - wk));
    }
}

/// Quitar el primer nodo de un camino deja un camino.
pub proof fn lema_camino_quitar_primero(g: Grafo, p: Seq<usize>)
    requires
        es_camino(g, p),
        p.len() >= 2,
    ensures
        es_camino(g, p.drop_first()),
{
    let q = p.drop_first();
    assert forall|i: int| 0 <= i < q.len() - 1 implies #[trigger] arista_existe(g, q[i], q[i + 1]) by {
        assert(q[i] == p[i + 1]);
        assert(q[i + 1] == p[i + 2]);
        assert(arista_existe(g, p[i + 1], p[i + 2]));
    }
}

/// Todo camino por aristas se puede realizar con algún costo: si un nodo
/// es alcanzable en el sentido de `es_camino`, también lo es en el sentido
/// de `es_camino_con_costo`, que es el que usa el contrato de Dijkstra.
pub proof fn lema_camino_tiene_costo(g: Grafo, p: Seq<usize>)
    requires
        g.bien_formado(),
        es_camino(g, p),
        p.len() >= 1,
        (p[0] as int) < g.adyacencia@.len(),
    ensures
        exists|c: int| es_camino_con_costo(g, p, c),
    decreases p.len(),
{
    if p.len() == 1 {
        assert(es_camino_con_costo(g, p, 0));
    } else {
        assert(arista_existe(g, p[0], p[0int + 1]));
        let k = choose|k: int|
            0 <= k < g.adyacencia@[p[0] as int]@.len() && (#[trigger] g.adyacencia@[p[0] as int]@[k]).destino
                == p[1];
        lema_camino_quitar_primero(g, p);
        assert(p.drop_first()[0] == p[1]);
        lema_camino_tiene_costo(g, p.drop_first());
        let c1 = choose|c: int| es_camino_con_costo(g, p.drop_first(), c);
        assert(es_camino_con_costo(g, p, c1 + g.adyacencia@[p[0] as int]@[k].costo));
    }
}

/// Una sucesión sin repetidos cuyos elementos son índices menores que `n`
/// no puede tener más de `n` elementos.
pub proof fn lema_largo_sin_repetidos(s: Seq<usize>, n: nat)
    requires
        s.no_duplicates(),
        forall|i: int| 0 <= i < s.len() ==> (#[trigger] s[i] as nat) < n,
    ensures
        s.len() <= n,
{
    let t = Seq::<int>::new(s.len(), |i: int| s[i] as int);
    assert(t.no_duplicates()) by {
        assert forall|i: int, j: int|
            0 <= i < t.len() && 0 <= j < t.len() && i != j implies t[i] != t[j] by {
            assert(s[i] != s[j]);
        }
    }
    t.unique_seq_to_set();
    assert(t.to_set().subset_of(set_int_range(0, n as int))) by {
        assert forall|x: int| t.to_set().contains(x) implies set_int_range(0, n as int).contains(
            x,
        ) by {
            let i = choose|i: int| 0 <= i < t.len() && t[i] == x;
            assert((s[i] as nat) < n);
        }
    }
    lemma_int_range(0, n as int);
    lemma_len_subset(t.to_set(), set_int_range(0, n as int));
}

} // verus!
