//! Motores de búsqueda sobre el grafo: DFS guiado por pistas con
//! retroceso, y camino de costo mínimo por Dijkstra.

use vstd::prelude::*;

use crate::caminos::{
    camino_simple_hasta, cota_caminos, es_camino, es_camino_con_costo, evita,
    existe_camino_simple_evitando, lema_camino_quitar_primero, lema_ccc_indices,
    lema_ccc_no_negativo, lema_ccc_quitar_ultimo, lema_largo_sin_repetidos,
};
use crate::graph::{arista_existe, Grafo};
use crate::ubication::{ubicaciones_validas, InfoUbicacion, Ubicaciones};

verus! {

/// Un paso que la DFS puede dar de `u` a `v`: por una arista del grafo o
/// por la sugerencia `next` de la ubicación `u`.
pub open spec fn paso_valido(g: Grafo, ubic: Seq<InfoUbicacion>, u: usize, v: usize) -> bool {
    arista_existe(g, u, v) || ((u as int) < ubic.len() && ubic[u as int].next == Some(v))
}

/// Toda sugerencia `next` de la tabla apunta a un vecino por arista del
/// nodo que la lleva.
pub open spec fn pistas_siguen_aristas(g: Grafo, ubic: Seq<InfoUbicacion>) -> bool {
    forall|i: int|
        0 <= i < ubic.len() ==> match (#[trigger] ubic[i]).next {
            Some(j) => arista_existe(g, i as usize, j),
            None => true,
        }
}

/// Busca si `v` aparece en la sucesión de índices.
fn contiene_indice(v: &Vec<usize>, x: usize) -> (r: bool)
    ensures
        r == v@.contains(x),
{
    let mut i: usize = 0;
    while i < v.len()
        invariant
            i <= v@.len(),
            forall|j: int| 0 <= j < i ==> v@[j] != x,
        decreases v@.len() - i,
    {
        if v[i] == x {
            return true;
        }
        i = i + 1;
    }
    false
}

/// DFS guiado por pistas, con `camino_actual` como guardia de ciclos: un
/// nodo ya presente en la ruta parcial no se vuelve a pisar. En cada nodo
/// intenta primero la sugerencia `next` de su ubicación y después recorre
/// los vecinos en el orden de inserción de las aristas; en un callejón sin
/// salida retrocede y deja `camino_actual` como estaba.
///
/// Si devuelve verdadero, `ruta_encontrada` guarda la ruta parcial inicial
/// extendida desde `actual` hasta `tesoro`, sin nodos repetidos, con cada
/// paso nuevo dado por arista o por sugerencia. Si devuelve falso, deja
/// todo como estaba, y no existe ningún camino simple de `actual` a
/// `tesoro` por aristas del grafo que evite la ruta parcial inicial.
#[verifier::loop_isolation(false)]
pub fn dfs_buscar_tesoro(
    grafo: &Grafo,
    ubicaciones: &mut Ubicaciones,
    actual: usize,
    tesoro: usize,
    camino_actual: &mut Vec<usize>,
    ruta_encontrada: &mut Option<Vec<usize>>,
) -> (hallado: bool)
    requires
        grafo.bien_formado(),
        ubicaciones_validas(old(ubicaciones)@, grafo.n()),
        actual < grafo.n(),
        tesoro < grafo.n(),
        old(camino_actual)@.no_duplicates(),
        forall|i: int|
            0 <= i < old(camino_actual)@.len() ==> (#[trigger] old(camino_actual)@[i]) < grafo.n(),
    ensures
        final(ubicaciones)@ == old(ubicaciones)@,
        !hallado ==> {
            &&& final(camino_actual)@ == old(camino_actual)@
            &&& *final(ruta_encontrada) == *old(ruta_encontrada)
            &&& !existe_camino_simple_evitando(*grafo, actual, tesoro, old(camino_actual)@)
        },
        hallado ==> ((*final(ruta_encontrada)) matches Some(ruta) && {
            let r = ruta@;
            let m = old(camino_actual)@.len() as int;
            &&& final(camino_actual)@ == r
            &&& r.len() > m
            &&& r.subrange(0, m) == old(camino_actual)@
            &&& r[m] == actual
            &&& r.last() == tesoro
            &&& r.no_duplicates()
            &&& forall|i: int| 0 <= i < r.len() ==> (#[trigger] r[i]) < grafo.n()
            &&& forall|i: int|
                m <= i < r.len() - 1 ==> paso_valido(*grafo, old(ubicaciones)@, r[i], #[trigger] r[i
                    + 1])
            &&& pistas_siguen_aristas(*grafo, old(ubicaciones)@) ==> forall|i: int|
                m <= i < r.len() - 1 ==> arista_existe(*grafo, r[i], #[trigger] r[i + 1])
        }),
    decreases grafo.n() - camino_actual@.len(),
{
    let ghost camino0 = old(camino_actual)@;

    // Si el nodo `actual` ya está en la ruta parcial, hay un ciclo: cortamos.
    if contiene_indice(camino_actual, actual) {
        proof {
            assert(!existe_camino_simple_evitando(*grafo, actual, tesoro, camino0)) by {
                if existe_camino_simple_evitando(*grafo, actual, tesoro, camino0) {
                    let p = choose|p: Seq<usize>|
                        #[trigger] camino_simple_hasta(*grafo, p, actual, tesoro) && evita(
                            p,
                            camino0,
                        );
                    assert(!camino0.contains(p[0]));
                }
            }
        }
        return false;
    }

    // Añadimos `actual` a la ruta parcial.
    camino_actual.push(actual);
    let ghost camino1 = camino_actual@;
    proof {
        assert(camino1.drop_last() =~= camino0);
        lema_largo_sin_repetidos(camino1, grafo.n());
    }

    // ¿Llegamos al tesoro?
    if actual == tesoro {
        *ruta_encontrada = Some(camino_actual.clone());
        proof {
            assert(camino1.subrange(0, camino0.len() as int) =~= camino0);
        }
        return true;
    }

    // 1) Intentamos seguir la sugerencia de la ubicación antes que los vecinos.
    let sig_opt = ubicaciones[actual].next;
    if let Some(sig) = sig_opt {
        // Solo si `sig` no genera ciclo en la ruta parcial.
        if !contiene_indice(camino_actual, sig) {
            if dfs_buscar_tesoro(grafo, ubicaciones, sig, tesoro, camino_actual, ruta_encontrada) {
                proof {
                    lema_exito_extiende(
                        *grafo,
                        old(ubicaciones)@,
                        ((*ruta_encontrada)->Some_0)@,
                        camino0,
                        actual,
                        sig,
                        tesoro,
                    );
                }
                return true;
            }
        }
    }

    // 2) Si la sugerencia no llevó al tesoro, exploramos los vecinos no
    // cíclicos en orden de inserción.
    let num_vecinos = grafo.adyacencia[actual].len();
    let mut k: usize = 0;
    while k < num_vecinos
        invariant
            k <= num_vecinos,
            camino_actual@ == camino1,
            ubicaciones@ == old(ubicaciones)@,
            *ruta_encontrada == *old(ruta_encontrada),
            forall|j: int|
                0 <= j < k ==> {
                    let d = (#[trigger] grafo.adyacencia@[actual as int]@[j]).destino;
                    camino1.contains(d) || !existe_camino_simple_evitando(
                        *grafo,
                        d,
                        tesoro,
                        camino1,
                    )
                },
        decreases num_vecinos - k,
    {
        let vecino = grafo.adyacencia[actual][k].destino;
        if !contiene_indice(camino_actual, vecino) {
            if dfs_buscar_tesoro(grafo, ubicaciones, vecino, tesoro, camino_actual, ruta_encontrada)
             {
                proof {
                    assert(arista_existe(*grafo, actual, vecino));
                    lema_exito_extiende(
                        *grafo,
                        old(ubicaciones)@,
                        ((*ruta_encontrada)->Some_0)@,
                        camino0,
                        actual,
                        vecino,
                        tesoro,
                    );
                }
                return true;
            }
        }
        k = k + 1;
    }

    // Retroceso: sacamos `actual` de la ruta parcial y este intento falla.
    camino_actual.pop();
    proof {
        assert(camino_actual@ =~= camino0);
        assert(!existe_camino_simple_evitando(*grafo, actual, tesoro, camino0)) by {
            if existe_camino_simple_evitando(*grafo, actual, tesoro, camino0) {
                let p = choose|p: Seq<usize>|
                    #[trigger] camino_simple_hasta(*grafo, p, actual, tesoro) && evita(p, camino0);
                assert(p[0] == actual);
                if p.len() == 1 {
                    assert(actual == tesoro);
                } else {
                    assert(es_camino(*grafo, p));
                    assert(0 < p.len() - 1);
                    assert(arista_existe(*grafo, p[0int], p[0int + 1]));
                    assert(arista_existe(*grafo, p[0], p[1]));
                    let j = choose|j: int|
                        0 <= j < grafo.adyacencia@[actual as int]@.len() && (#[trigger] grafo.adyacencia@[actual as int]@[j]).destino
                            == p[1];
                    let q = p.drop_first();
                    lema_camino_quitar_primero(*grafo, p);
                    assert(q[0] == p[1]);
                    assert(q.last() == p.last());
                    assert(q.no_duplicates());
                    assert(camino_simple_hasta(*grafo, q, p[1], tesoro));
                    assert(evita(q, camino1)) by {
                        assert forall|i: int| 0 <= i < q.len() implies !camino1.contains(
                            #[trigger] q[i],
                        ) by {
                            assert(q[i] == p[i + 1]);
                            assert(!camino0.contains(p[i + 1]));
                            assert(p[i + 1] != p[0]);
                            assert forall|x: usize| camino1.contains(x) implies camino0.contains(x)
                                || x == actual by {
                                let ix = choose|ix: int|
                                    0 <= ix < camino1.len() && camino1[ix] == x;
                                if ix < camino0.len() {
                                    assert(camino0[ix] == x);
                                }
                            }
                        }
                    }
                    assert(!camino1.contains(p[1]));
                    assert(existe_camino_simple_evitando(*grafo, p[1], tesoro, camino1));
                    assert(false);
                }
                assert(false);
            }
        }
    }
    false
}

/// Propagación del éxito: si la llamada recursiva desde `siguiente`
/// devolvió una ruta que extiende `camino0.push(actual)`, esa misma ruta
/// extiende `camino0` con `actual` como primer nodo nuevo, y el paso de
/// `actual` a `siguiente` es válido.
proof fn lema_exito_extiende(
    g: Grafo,
    ubic: Seq<InfoUbicacion>,
    r: Seq<usize>,
    camino0: Seq<usize>,
    actual: usize,
    siguiente: usize,
    tesoro: usize,
)
    requires
        paso_valido(g, ubic, actual, siguiente),
        r.len() > camino0.len() + 1,
        r.subrange(0, camino0.len() as int + 1) == camino0.push(actual),
        r[camino0.len() as int + 1] == siguiente,
        forall|i: int|
            camino0.len() + 1 <= i < r.len() - 1 ==> paso_valido(g, ubic, r[i], #[trigger] r[i + 1]),
        pistas_siguen_aristas(g, ubic) ==> forall|i: int|
            camino0.len() + 1 <= i < r.len() - 1 ==> arista_existe(g, r[i], #[trigger] r[i + 1]),
    ensures
        r.subrange(0, camino0.len() as int) == camino0,
        r[camino0.len() as int] == actual,
        forall|i: int|
            camino0.len() <= i < r.len() - 1 ==> paso_valido(g, ubic, r[i], #[trigger] r[i + 1]),
        pistas_siguen_aristas(g, ubic) ==> forall|i: int|
            camino0.len() <= i < r.len() - 1 ==> arista_existe(g, r[i], #[trigger] r[i + 1]),
{
    let m = camino0.len() as int;
    assert(r.subrange(0, m) =~= camino0) by {
        assert forall|i: int| 0 <= i < m implies r.subrange(0, m)[i] == camino0[i] by {
            assert(r.subrange(0, m + 1)[i] == camino0.push(actual)[i]);
        }
    }
    assert(r[m] == camino0.push(actual)[m]) by {
        assert(r.subrange(0, m + 1)[m] == camino0.push(actual)[m]);
    }
    assert(r[m + 1] == siguiente);
    assert forall|i: int| m <= i < r.len() - 1 implies paso_valido(g, ubic, r[i], #[trigger] r[i
        + 1]) by {
        if i == m {
            assert(r[i] == actual && r[i + 1] == siguiente);
        }
    }
    if pistas_siguen_aristas(g, ubic) {
        assert forall|i: int| m <= i < r.len() - 1 implies arista_existe(g, r[i], #[trigger] r[i
            + 1]) by {
            if i == m {
                assert(paso_valido(g, ubic, actual, siguiente));
                if !arista_existe(g, actual, siguiente) {
                    assert(ubic[actual as int].next == Some(siguiente));
                    assert(arista_existe(g, actual, siguiente));
                }
            }
        }
    }
}

/// Posición de la primera aparición de `v` en `orden`, o el largo de
/// `orden` si `v` no aparece: el rango con que Dijkstra asentó cada nodo.
spec fn posicion(orden: Seq<usize>, v: usize) -> int
    decreases orden.len(),
{
    if orden.len() == 0 {
        0
    } else if orden[0] == v {
        0
    } else {
        1 + posicion(orden.drop_first(), v)
    }
}

proof fn lema_contiene_sin_primero(orden: Seq<usize>, v: usize)
    requires
        orden.len() > 0,
        orden[0] != v,
    ensures
        orden.contains(v) <==> orden.drop_first().contains(v),
{
    if orden.contains(v) {
        let i = choose|i: int| 0 <= i < orden.len() && orden[i] == v;
        assert(orden.drop_first()[i - 1] == v);
    }
    if orden.drop_first().contains(v) {
        let i = choose|i: int| 0 <= i < orden.drop_first().len() && orden.drop_first()[i] == v;
        assert(orden[i + 1] == v);
    }
}

proof fn lema_posicion_cota(orden: Seq<usize>, v: usize)
    ensures
        0 <= posicion(orden, v) <= orden.len(),
        orden.contains(v) <==> posicion(orden, v) < orden.len(),
    decreases orden.len(),
{
    if orden.len() == 0 {
        assert(!orden.contains(v));
    } else if orden[0] == v {
        assert(orden.contains(v));
    } else {
        lema_posicion_cota(orden.drop_first(), v);
        lema_contiene_sin_primero(orden, v);
    }
}

proof fn lema_contiene_empujar(orden: Seq<usize>, u: usize, x: usize)
    ensures
        orden.push(u).contains(x) <==> orden.contains(x) || x == u,
{
    if orden.contains(x) {
        let i = choose|i: int| 0 <= i < orden.len() && orden[i] == x;
        assert(orden.push(u)[i] == x);
    }
    assert(orden.push(u)[orden.len() as int] == u);
    if orden.push(u).contains(x) {
        let i = choose|i: int| 0 <= i < orden.push(u).len() && orden.push(u)[i] == x;
        if i < orden.len() {
            assert(orden[i] == x);
        }
    }
}

proof fn lema_posicion_empujar(orden: Seq<usize>, u: usize, v: usize)
    ensures
        orden.contains(v) ==> posicion(orden.push(u), v) == posicion(orden, v),
        !orden.contains(v) && v == u ==> posicion(orden.push(u), v) == orden.len(),
        !orden.contains(v) && v != u ==> posicion(orden.push(u), v) == orden.len() + 1,
    decreases orden.len(),
{
    lema_posicion_cota(orden, v);
    if orden.len() == 0 {
        assert(orden.push(u).drop_first() =~= Seq::<usize>::empty());
        assert(orden.push(u)[0] == u);
        assert(!orden.contains(v));
        assert(posicion(Seq::<usize>::empty(), v) == 0);
        if v == u {
            assert(posicion(orden.push(u), v) == 0);
        } else {
            assert(posicion(orden.push(u), v) == 1 + posicion(orden.push(u).drop_first(), v));
            assert(posicion(orden.push(u), v) == 1);
        }
    } else if orden[0] == v {
        assert(orden.push(u)[0] == v);
        assert(orden.contains(v));
        assert(posicion(orden.push(u), v) == 0);
        assert(posicion(orden, v) == 0);
    } else {
        assert(orden.push(u)[0] == orden[0]);
        assert(orden.push(u).drop_first() =~= orden.drop_first().push(u));
        lema_posicion_empujar(orden.drop_first(), u, v);
        lema_contiene_sin_primero(orden, v);
        assert(posicion(orden.push(u), v) == 1 + posicion(orden.drop_first().push(u), v));
        assert(posicion(orden, v) == 1 + posicion(orden.drop_first(), v));
    }
}

/// Toda arista que sale de un nodo asentado está relajada: su destino no
/// queda más lejos que el origen más el costo de la arista.
spec fn relajado(g: Grafo, dist: Seq<u32>, visitado: Seq<bool>) -> bool {
    forall|x: int, j: int|
        0 <= x < dist.len() && visitado[x] && 0 <= j < g.adyacencia@[x]@.len() ==> dist[(
        #[trigger] g.adyacencia@[x]@[j]).destino as int] <= dist[x] + g.adyacencia@[x]@[j].costo
}

/// Como `relajado`, salvo las aristas de `u` desde la posición `k` en
/// adelante, que aún no se recorrieron.
spec fn relajado_salvo(g: Grafo, dist: Seq<u32>, visitado: Seq<bool>, u: usize, k: int) -> bool {
    forall|x: int, j: int|
        0 <= x < dist.len() && visitado[x] && 0 <= j < g.adyacencia@[x]@.len() && (x != u as int || j
            < k) ==> dist[(#[trigger] g.adyacencia@[x]@[j]).destino as int] <= dist[x]
            + g.adyacencia@[x]@[j].costo
}

/// Todo nodo asentado tiene en `dist` una cota inferior del costo de
/// cualquier camino que llega a él desde `inicio`.
spec fn optimo(g: Grafo, inicio: usize, dist: Seq<u32>, visitado: Seq<bool>) -> bool {
    forall|v: int|
        0 <= v < dist.len() && #[trigger] visitado[v] ==> cota_caminos(
            g,
            inicio,
            v as usize,
            dist[v] as int,
        )
}

/// Los punteros de reconstrucción están al día: cada padre es un asentado
/// anterior en el orden de visita, unido por una arista cuya suma da la
/// distancia del hijo, y solo el origen o los nodos aún a distancia
/// infinita no tienen padre.
spec fn padres_bien(
    g: Grafo,
    inicio: usize,
    dist: Seq<u32>,
    padres: Seq<Option<usize>>,
    visitado: Seq<bool>,
    orden: Seq<usize>,
) -> bool {
    forall|v: int|
        0 <= v < padres.len() ==> match #[trigger] padres[v] {
            Some(u) => {
                &&& (u as int) < padres.len()
                &&& visitado[u as int]
                &&& dist[v] < u32::MAX
                &&& v != inicio as int
                &&& posicion(orden, u) < posicion(orden, v as usize)
                &&& exists|k: int|
                    0 <= k < g.adyacencia@[u as int]@.len() && (#[trigger] g.adyacencia@[u as int]@[k]).destino
                        == v as usize && dist[u as int] + g.adyacencia@[u as int]@[k].costo
                        == dist[v]
            },
            None => v != inicio as int ==> dist[v] == u32::MAX,
        }
}

/// El estado completo del recorrido de Dijkstra.
spec fn estado_dijkstra(
    g: Grafo,
    inicio: usize,
    dist: Seq<u32>,
    padres: Seq<Option<usize>>,
    visitado: Seq<bool>,
    orden: Seq<usize>,
) -> bool {
    let n = g.nombres@.len() as int;
    &&& g.bien_formado()
    &&& (inicio as int) < n
    &&& dist.len() == n
    &&& padres.len() == n
    &&& visitado.len() == n
    &&& dist[inicio as int] == 0
    &&& padres[inicio as int] is None
    &&& orden.no_duplicates()
    &&& forall|i: int| 0 <= i < orden.len() ==> ((#[trigger] orden[i]) as int) < n
    &&& forall|v: int| 0 <= v < n ==> ((#[trigger] visitado[v]) <==> orden.contains(v as usize))
    &&& relajado(g, dist, visitado)
    &&& optimo(g, inicio, dist, visitado)
    &&& padres_bien(g, inicio, dist, padres, visitado, orden)
}

/// Cota inferior del recorrido: con las aristas de los asentados relajadas
/// y todo no asentado a distancia al menos `cota`, un camino desde `inicio`
/// cuyos nodos están todos asentados cuesta al menos la distancia de su
/// último nodo, y uno que pisa algún no asentado cuesta al menos `cota`.
proof fn lema_cota_inferior(
    g: Grafo,
    inicio: usize,
    dist: Seq<u32>,
    visitado: Seq<bool>,
    cota: int,
    p: Seq<usize>,
    c: int,
)
    requires
        g.bien_formado(),
        dist.len() == g.adyacencia@.len(),
        visitado.len() == g.adyacencia@.len(),
        (inicio as int) < g.adyacencia@.len(),
        dist[inicio as int] == 0,
        relajado(g, dist, visitado),
        forall|w: int| 0 <= w < dist.len() && !visitado[w] ==> (#[trigger] dist[w]) as int >= cota,
        es_camino_con_costo(g, p, c),
        p[0] == inicio,
    ensures
        (forall|i: int| 0 <= i < p.len() ==> visitado[(#[trigger] p[i]) as int]) ==> c >= dist[p.last() as int],
        (exists|i: int| 0 <= i < p.len() && !visitado[(#[trigger] p[i]) as int]) ==> c >= cota,
    decreases p.len(),
{
    lema_ccc_indices(g, p, c);
    lema_ccc_no_negativo(g, p, c);
    if p.len() == 1 {
        assert(p.last() == inicio);
    } else {
        lema_ccc_quitar_ultimo(g, p, c);
        let x = p[p.len() - 2];
        let v = p.last();
        let k = choose|k: int|
            0 <= k < g.adyacencia@[x as int]@.len() && (#[trigger] g.adyacencia@[x as int]@[k]).destino
                == v && es_camino_con_costo(g, p.drop_last(), c - g.adyacencia@[x as int]@[k].costo);
        let w = g.adyacencia@[x as int]@[k].costo;
        let q = p.drop_last();
        assert(q[0] == inicio);
        assert(q.last() == x);
        assert forall|i: int| 0 <= i < q.len() implies (#[trigger] q[i]) == p[i] by {}
        lema_cota_inferior(g, inicio, dist, visitado, cota, q, c - w);
        if forall|i: int| 0 <= i < p.len() ==> visitado[(#[trigger] p[i]) as int] {
            assert(forall|i: int| 0 <= i < q.len() ==> visitado[(#[trigger] q[i]) as int]);
            assert(c - w >= dist[x as int]);
            assert(dist[v as int] <= dist[x as int] + w);
            assert(c >= dist[v as int]);
        }
        if exists|i: int| 0 <= i < p.len() && !visitado[(#[trigger] p[i]) as int] {
            let i0 = choose|i: int| 0 <= i < p.len() && !visitado[(#[trigger] p[i]) as int];
            if i0 < p.len() - 1 {
                assert(q[i0] == p[i0]);
                assert(exists|i: int| 0 <= i < q.len() && !visitado[(#[trigger] q[i]) as int]);
                assert(c - w >= cota);
            } else {
                assert(!visitado[v as int]);
                if forall|i: int| 0 <= i < q.len() ==> visitado[(#[trigger] q[i]) as int] {
                    assert(c - w >= dist[x as int]);
                    assert(dist[v as int] <= dist[x as int] + w);
                    assert((dist[v as int]) as int >= cota);
                } else {
                    assert(exists|i: int| 0 <= i < q.len() && !visitado[(#[trigger] q[i]) as int]);
                    assert(c - w >= cota);
                }
            }
            assert(c >= cota);
        }
    }
}

/// Agregar al final de un camino con costo una arista que sale de su
/// último nodo da otro camino con costo.
proof fn lema_ccc_agregar(g: Grafo, p: Seq<usize>, c: int, k: int)
    requires
        g.bien_formado(),
        es_camino_con_costo(g, p, c),
        0 <= k < g.adyacencia@[p.last() as int]@.len(),
    ensures
        es_camino_con_costo(
            g,
            p.push(g.adyacencia@[p.last() as int]@[k].destino),
            c + g.adyacencia@[p.last() as int]@[k].costo,
        ),
    decreases p.len(),
{
    let d = g.adyacencia@[p.last() as int]@[k].destino;
    let w = g.adyacencia@[p.last() as int]@[k].costo;
    if p.len() == 1 {
        let r = p.push(d);
        assert(r[0] == p[0] && r[1] == d);
        assert(r.drop_first() =~= seq![d]);
        assert(es_camino_con_costo(g, seq![d], 0));
        assert(es_camino_con_costo(g, r, c + w));
    } else {
        let k0 = choose|j: int|
            0 <= j < g.adyacencia@[p[0] as int]@.len() && (#[trigger] g.adyacencia@[p[0] as int]@[j]).destino
                == p[1] && es_camino_con_costo(
                g,
                p.drop_first(),
                c - g.adyacencia@[p[0] as int]@[j].costo,
            );
        let w0 = g.adyacencia@[p[0] as int]@[k0].costo;
        assert(p.drop_first().last() == p.last());
        lema_ccc_agregar(g, p.drop_first(), c - w0, k);
        let r = p.push(d);
        assert(r.drop_first() =~= p.drop_first().push(d));
        assert(r[0] == p[0] && r[1] == p[1]);
        assert(es_camino_con_costo(g, r, c + w));
    }
}

/// Mientras `dist[v]` es finita, la cadena de padres realiza un camino de
/// `inicio` a `v` con costo exactamente `dist[v]`.
proof fn lema_realizable(
    g: Grafo,
    inicio: usize,
    dist: Seq<u32>,
    padres: Seq<Option<usize>>,
    visitado: Seq<bool>,
    orden: Seq<usize>,
    v: usize,
)
    requires
        g.bien_formado(),
        dist.len() == g.adyacencia@.len(),
        padres.len() == g.adyacencia@.len(),
        (inicio as int) < g.adyacencia@.len(),
        dist[inicio as int] == 0,
        padres_bien(g, inicio, dist, padres, visitado, orden),
        (v as int) < g.adyacencia@.len(),
        dist[v as int] < u32::MAX,
    ensures
        exists|p: Seq<usize>|
            #[trigger] es_camino_con_costo(g, p, dist[v as int] as int) && p[0] == inicio
                && p.last() == v,
    decreases posicion(orden, v),
{
    match padres[v as int] {
        None => {
            assert(v == inicio);
            assert(es_camino_con_costo(g, seq![inicio], 0));
            assert(seq![inicio][0] == inicio && seq![inicio].last() == inicio);
        },
        Some(x) => {
            let k = choose|k: int|
                0 <= k < g.adyacencia@[x as int]@.len() && (#[trigger] g.adyacencia@[x as int]@[k]).destino
                    == v && dist[x as int] + g.adyacencia@[x as int]@[k].costo == dist[v as int];
            let w = g.adyacencia@[x as int]@[k].costo;
            assert(dist[x as int] < u32::MAX);
            lema_posicion_cota(orden, x);
            lema_realizable(g, inicio, dist, padres, visitado, orden, x);
            let p0 = choose|p: Seq<usize>|
                #[trigger] es_camino_con_costo(g, p, dist[x as int] as int) && p[0] == inicio
                    && p.last() == x;
            lema_ccc_agregar(g, p0, dist[x as int] as int, k);
            let p1 = p0.push(v);
            assert(es_camino_con_costo(g, p1, dist[v as int] as int));
            assert(p1[0] == inicio && p1.last() == v);
        },
    }
}

/// Invierte una sucesión de índices.
fn invertir(v: &Vec<usize>) -> (r: Vec<usize>)
    ensures
        r@ == v@.reverse(),
{
    let mut r: Vec<usize> = Vec::new();
    let mut i: usize = v.len();
    while i > 0
        invariant
            i <= v@.len(),
            r@.len() == v@.len() - i,
            forall|j: int| 0 <= j < r@.len() ==> r@[j] == v@[v@.len() - 1 - j],
        decreases i,
    {
        i = i - 1;
        r.push(v[i]);
    }
    proof {
        assert(r@ =~= v@.reverse());
    }
    r
}

/// Dijkstra: devuelve la ruta de costo mínimo desde `inicio` hasta
/// `destino` como sucesión de índices, o una sucesión vacía si no hay
/// camino alcanzable dentro del ancho de costos.
///
/// Si la ruta no es vacía, va de `inicio` a `destino`, alguna elección de
/// aristas la realiza con un costo `c` menor que `u32::MAX`, y ningún otro
/// camino realizado entre esos extremos cuesta menos que `c`. Si es vacía,
/// todo camino de `inicio` a `destino` costaría al menos `u32::MAX`; en
/// particular, no hay ninguno cuando los costos reales quedan por debajo
/// de ese tope.
#[verifier::loop_isolation(false)]
#[verifier::rlimit(60)]
pub fn dijkstra_ruta_minima(grafo: &Grafo, inicio: usize, destino: usize) -> (ruta: Vec<usize>)
    requires
        grafo.bien_formado(),
        inicio < grafo.n(),
        destino < grafo.n(),
    ensures
        ruta@.len() == 0 ==> cota_caminos(*grafo, inicio, destino, u32::MAX as int),
        ruta@.len() != 0 ==> {
            &&& ruta@[0] == inicio
            &&& ruta@.last() == destino
            &&& exists|c: int|
                0 <= c < u32::MAX && #[trigger] es_camino_con_costo(*grafo, ruta@, c)
                    && cota_caminos(*grafo, inicio, destino, c)
        },
{
    let n = grafo.nombres.len();
    let mut dist: Vec<u32> = Vec::new();
    let mut padres: Vec<Option<usize>> = Vec::new();
    let mut visitado: Vec<bool> = Vec::new();
    let mut i: usize = 0;
    while i < n
        invariant
            i <= n,
            dist@.len() == i,
            padres@.len() == i,
            visitado@.len() == i,
            forall|j: int| 0 <= j < i ==> (#[trigger] dist@[j]) == u32::MAX,
            forall|j: int| 0 <= j < i ==> (#[trigger] padres@[j]) is None,
            forall|j: int| 0 <= j < i ==> (#[trigger] visitado@[j]) == false,
        decreases n - i,
    {
        dist.push(u32::MAX);
        padres.push(None);
        visitado.push(false);
        i = i + 1;
    }
    dist[inicio] = 0;
    let ghost mut orden: Seq<usize> = Seq::empty();
    proof {
        assert forall|v: int| 0 <= v < n implies ((#[trigger] visitado@[v]) <==> orden.contains(
            v as usize,
        )) by {
            assert(!orden.contains(v as usize));
        }
        assert(estado_dijkstra(*grafo, inicio, dist@, padres@, visitado@, orden));
    }

    #[verifier::loop_isolation(true)]
    loop
        invariant
            n == grafo.nombres@.len(),
            (destino as int) < n as int,
            orden.len() <= n,
            estado_dijkstra(*grafo, inicio, dist@, padres@, visitado@, orden),
        ensures
            estado_dijkstra(*grafo, inicio, dist@, padres@, visitado@, orden),
            cota_caminos(*grafo, inicio, destino, dist@[destino as int] as int),
        decreases n - orden.len(),
    {
        // Elegimos el no asentado de distancia finita mínima; a igual
        // distancia queda el de índice menor.
        let mut mejor: Option<usize> = None;
        let mut v: usize = 0;
        while v < n
            invariant
                v <= n,
                match mejor {
                    Some(m) => {
                        &&& (m as int) < n as int
                        &&& !visitado@[m as int]
                        &&& dist@[m as int] < u32::MAX
                        &&& forall|w: int|
                            0 <= w < v && !visitado@[w] ==> (#[trigger] dist@[w]) >= dist@[m as int]
                    },
                    None => forall|w: int|
                        0 <= w < v && !visitado@[w] ==> (#[trigger] dist@[w]) == u32::MAX,
                },
            decreases n - v,
        {
            if !visitado[v] && dist[v] < u32::MAX {
                match mejor {
                    Some(m) => {
                        if dist[v] < dist[m] {
                            mejor = Some(v);
                        }
                    },
                    None => {
                        mejor = Some(v);
                    },
                }
            }
            v = v + 1;
        }

        match mejor {
            None => {
                proof {
                    let ghost dd = dist@[destino as int] as int;
                    if visitado@[destino as int] {
                        assert(cota_caminos(*grafo, inicio, destino, dd));
                    } else {
                        assert(dist@[destino as int] == u32::MAX);
                        assert forall|p: Seq<usize>, c: int|
                            #[trigger] es_camino_con_costo(*grafo, p, c) && p[0] == inicio
                                && p.last() == destino implies c >= dd by {
                            lema_ccc_indices(*grafo, p, c);
                            lema_cota_inferior(
                                *grafo,
                                inicio,
                                dist@,
                                visitado@,
                                u32::MAX as int,
                                p,
                                c,
                            );
                            assert(0 <= p.len() - 1 < p.len() && !visitado@[(p[p.len() - 1]) as int]);
                        }
                    }
                }
                break;
            },
            Some(u) => {
                let du = dist[u];
                // El mínimo acota desde abajo todo camino que llega a él.
                proof {
                    assert forall|p: Seq<usize>, c: int|
                        #[trigger] es_camino_con_costo(*grafo, p, c) && p[0] == inicio && p.last()
                            == u implies c >= du as int by {
                        lema_ccc_indices(*grafo, p, c);
                        lema_cota_inferior(*grafo, inicio, dist@, visitado@, du as int, p, c);
                        assert(0 <= p.len() - 1 < p.len() && !visitado@[(p[p.len() - 1]) as int]);
                    }
                    assert(cota_caminos(*grafo, inicio, u, du as int));
                }
                if u == destino {
                    break;
                }
                // Asentamos `u` y relajamos sus aristas.
                visitado[u] = true;
                let ghost orden0 = orden;
                proof {
                    orden = orden.push(u);
                    lema_posicion_cota(orden0, u);
                    assert(orden.no_duplicates()) by {
                        assert forall|a: int, b: int|
                            0 <= a < orden.len() && 0 <= b < orden.len() && a != b implies orden[a]
                            != orden[b] by {
                            if a < orden0.len() && b < orden0.len() {
                                assert(orden0[a] != orden0[b]);
                            } else if a < orden0.len() {
                                assert(orden0.contains(orden0[a]));
                            } else if b < orden0.len() {
                                assert(orden0.contains(orden0[b]));
                            }
                        }
                    }
                    assert forall|w: int| 0 <= w < n implies ((#[trigger] visitado@[w])
                        <==> orden.contains(w as usize)) by {
                        lema_contiene_empujar(orden0, u, w as usize);
                    }
                    assert(padres_bien(*grafo, inicio, dist@, padres@, visitado@, orden)) by {
                        assert forall|w: int| 0 <= w < padres@.len() implies match #[trigger] padres@[w] {
                            Some(x) => {
                                &&& (x as int) < padres@.len()
                                &&& visitado@[x as int]
                                &&& dist@[w] < u32::MAX
                                &&& w != inicio as int
                                &&& posicion(orden, x) < posicion(orden, w as usize)
                                &&& exists|k: int|
                                    0 <= k < grafo.adyacencia@[x as int]@.len() && (
                                    #[trigger] grafo.adyacencia@[x as int]@[k]).destino
                                        == w as usize && dist@[x as int]
                                        + grafo.adyacencia@[x as int]@[k].costo == dist@[w]
                            },
                            None => w != inicio as int ==> dist@[w] == u32::MAX,
                        } by {
                            match padres@[w] {
                                Some(x) => {
                                    lema_posicion_empujar(orden0, u, x);
                                    lema_posicion_empujar(orden0, u, w as usize);
                                    lema_posicion_cota(orden0, x);
                                    lema_posicion_cota(orden0, w as usize);
                                },
                                None => {},
                            }
                        }
                    }
                }
                let num = grafo.adyacencia[u].len();
                let mut k: usize = 0;
                while k < num
                    invariant
                        k <= num,
                        num == grafo.adyacencia@[u as int]@.len(),
                        (u as int) < n as int,
                        visitado@[u as int],
                        dist@.len() == n,
                        padres@.len() == n,
                        visitado@.len() == n,
                        dist@[u as int] == du,
                        dist@[inicio as int] == 0,
                        padres@[inicio as int] is None,
                        relajado_salvo(*grafo, dist@, visitado@, u, k as int),
                        optimo(*grafo, inicio, dist@, visitado@),
                        padres_bien(*grafo, inicio, dist@, padres@, visitado@, orden),
                        forall|w: int|
                            0 <= w < n && !visitado@[w] ==> (#[trigger] dist@[w]) >= du,
                    decreases num - k,
                {
                    let arista = grafo.adyacencia[u][k];
                    let vecino = arista.destino;
                    let nuevo = du.saturating_add(arista.costo);
                    if nuevo < dist[vecino] {
                        proof {
                            let ghost w2 = arista.costo;
                            assert(nuevo == du + w2);
                            assert(!visitado@[vecino as int]) by {
                                if visitado@[vecino as int] {
                                    lema_realizable(
                                        *grafo,
                                        inicio,
                                        dist@,
                                        padres@,
                                        visitado@,
                                        orden,
                                        u,
                                    );
                                    let p0 = choose|p: Seq<usize>|
                                        #[trigger] es_camino_con_costo(*grafo, p, du as int) && p[0]
                                            == inicio && p.last() == u;
                                    lema_ccc_agregar(*grafo, p0, du as int, k as int);
                                    assert(es_camino_con_costo(
                                        *grafo,
                                        p0.push(vecino),
                                        du + w2,
                                    ));
                                    assert(p0.push(vecino).last() == vecino);
                                    assert(cota_caminos(
                                        *grafo,
                                        inicio,
                                        vecino,
                                        dist@[vecino as int] as int,
                                    ));
                                    assert(du + w2 >= dist@[vecino as int]);
                                    assert(false);
                                }
                            }
                        }
                        let ghost dist_antes = dist@;
                        let ghost padres_antes = padres@;
                        dist[vecino] = nuevo;
                        padres[vecino] = Some(u);
                        proof {
                            lema_posicion_cota(orden, u);
                            lema_posicion_cota(orden, vecino);
                            assert(orden.contains(u));
                            assert(!orden.contains(vecino));
                            assert(relajado_salvo(*grafo, dist@, visitado@, u, k as int)) by {
                                assert forall|x: int, j: int|
                                    0 <= x < dist@.len() && visitado@[x] && 0 <= j
                                        < grafo.adyacencia@[x]@.len() && (x != u as int || j
                                        < k as int) implies dist@[(
                                    #[trigger] grafo.adyacencia@[x]@[j]).destino as int]
                                    <= dist@[x] + grafo.adyacencia@[x]@[j].costo by {
                                    assert(x != vecino as int);
                                    assert(dist_antes[(grafo.adyacencia@[x]@[j]).destino as int]
                                        <= dist_antes[x] + grafo.adyacencia@[x]@[j].costo);
                                }
                            }
                            assert(padres_bien(*grafo, inicio, dist@, padres@, visitado@, orden))
                                by {
                                assert forall|w: int| 0 <= w < padres@.len() implies match #[trigger] padres@[w] {
                                    Some(x) => {
                                        &&& (x as int) < padres@.len()
                                        &&& visitado@[x as int]
                                        &&& dist@[w] < u32::MAX
                                        &&& w != inicio as int
                                        &&& posicion(orden, x) < posicion(orden, w as usize)
                                        &&& exists|k2: int|
                                            0 <= k2 < grafo.adyacencia@[x as int]@.len() && (
                                            #[trigger] grafo.adyacencia@[x as int]@[k2]).destino
                                                == w as usize && dist@[x as int]
                                                + grafo.adyacencia@[x as int]@[k2].costo
                                                == dist@[w]
                                    },
                                    None => w != inicio as int ==> dist@[w] == u32::MAX,
                                } by {
                                    if w == vecino as int {
                                        assert(grafo.adyacencia@[u as int]@[k as int].destino
                                            == vecino);
                                        assert(dist@[u as int]
                                            + grafo.adyacencia@[u as int]@[k as int].costo
                                            == dist@[vecino as int]);
                                    } else {
                                        match padres_antes[w] {
                                            Some(x) => {
                                                assert(x != vecino);
                                            },
                                            None => {},
                                        }
                                    }
                                }
                            }
                        }
                    }
                    k = k + 1;
                }
                proof {
                    assert(relajado(*grafo, dist@, visitado@)) by {
                        assert forall|x: int, j: int|
                            0 <= x < dist@.len() && visitado@[x] && 0 <= j
                                < grafo.adyacencia@[x]@.len() implies dist@[(
                        #[trigger] grafo.adyacencia@[x]@[j]).destino as int] <= dist@[x]
                            + grafo.adyacencia@[x]@[j].costo by {}
                    }
                    assert(optimo(*grafo, inicio, dist@, visitado@)) by {
                        assert forall|w: int| 0 <= w < dist@.len() && #[trigger] visitado@[w] implies cota_caminos(
                            *grafo,
                            inicio,
                            w as usize,
                            dist@[w] as int,
                        ) by {
                            if w == u as int {
                                assert(cota_caminos(*grafo, inicio, u, du as int));
                            }
                        }
                    }
                    lema_largo_sin_repetidos(orden, grafo.n());
                    assert(orden.len() <= n);
                    assert(orden.len() == orden0.len() + 1);
                }
            },
        }
    }

    // Si no hay camino al destino, devolvemos la sucesión vacía.
    if dist[destino] == u32::MAX {
        return Vec::new();
    }

    // Reconstruimos la ruta siguiendo los padres desde `destino`.
    let mut ruta: Vec<usize> = Vec::new();
    let mut actual: usize = destino;
    proof {
        assert(seq![actual] + ruta@.reverse() =~= seq![destino]);
        assert(es_camino_con_costo(*grafo, seq![destino], 0));
    }
    #[verifier::loop_isolation(true)]
    loop
        invariant
            grafo.bien_formado(),
            n == grafo.nombres@.len(),
            dist@.len() == n as int,
            padres@.len() == n as int,
            visitado@.len() == n as int,
            (inicio as int) < n as int,
            dist@[inicio as int] == 0,
            padres@[inicio as int] is None,
            (destino as int) < n as int,
            padres_bien(*grafo, inicio, dist@, padres@, visitado@, orden),
            (actual as int) < n as int,
            dist@[actual as int] < u32::MAX,
            es_camino_con_costo(
                *grafo,
                seq![actual] + ruta@.reverse(),
                dist@[destino as int] - dist@[actual as int],
            ),
            (seq![actual] + ruta@.reverse()).last() == destino,
        ensures
            actual == inicio,
            es_camino_con_costo(
                *grafo,
                seq![actual] + ruta@.reverse(),
                dist@[destino as int] - dist@[actual as int],
            ),
            (seq![actual] + ruta@.reverse()).last() == destino,
        decreases posicion(orden, actual),
    {
        match padres[actual] {
            Some(p) => {
                let ghost ruta_antes = ruta@;
                let ghost actual_antes = actual;
                ruta.push(actual);
                proof {
                    let ghost k = choose|k: int|
                        0 <= k < grafo.adyacencia@[p as int]@.len() && (
                        #[trigger] grafo.adyacencia@[p as int]@[k]).destino == actual_antes
                            && dist@[p as int] + grafo.adyacencia@[p as int]@[k].costo
                            == dist@[actual_antes as int];
                    assert(dist@[p as int] < u32::MAX);
                    assert(ruta@.reverse() =~= seq![actual_antes] + ruta_antes.reverse());
                    let vieja = seq![actual_antes] + ruta_antes.reverse();
                    let nueva = seq![p] + ruta@.reverse();
                    assert(nueva.drop_first() =~= vieja);
                    assert(nueva[0] == p && nueva[1] == actual_antes);
                    assert(es_camino_con_costo(
                        *grafo,
                        nueva,
                        dist@[destino as int] - dist@[p as int],
                    ));
                    assert(nueva.last() == vieja.last());
                    assert(padres@[actual_antes as int] == Some(p));
                    assert(posicion(orden, p) < posicion(orden, actual_antes));
                    lema_posicion_cota(orden, p);
                }
                actual = p;
            },
            None => {
                proof {
                    assert(actual == inicio);
                }
                break;
            },
        }
    }
    let ghost ruta_fin = ruta@;
    ruta.push(inicio);
    let invertida = invertir(&ruta);
    proof {
        let completa = invertida@;
        assert(ruta@ == ruta_fin.push(inicio));
        assert(completa =~= seq![inicio] + ruta_fin.reverse());
        let c = dist@[destino as int] as int;
        assert(es_camino_con_costo(
            *grafo,
            seq![actual] + ruta_fin.reverse(),
            dist@[destino as int] - dist@[actual as int],
        ));
        assert(actual == inicio && dist@[actual as int] == 0);
        assert(es_camino_con_costo(*grafo, completa, c));
        assert(completa[0] == inicio);
        assert((seq![actual] + ruta_fin.reverse()).last() == destino);
        assert(completa.last() == destino);
        assert(0 <= c < u32::MAX);
        assert(cota_caminos(*grafo, inicio, destino, c));
    }
    invertida
}

} // verus!
