use caza_tesoro::graph::Grafo;
use caza_tesoro::search::{dfs_buscar_tesoro, dijkstra_ruta_minima};
use caza_tesoro::ubication::{inicializar_ubicaciones_vacias, Ubicaciones};

const BEACH: usize = 0;
const CAVE: usize = 1;
const MOUNTAIN: usize = 2;
const FOREST: usize = 3;
const WOODS: usize = 4;
const TREASURE: usize = 5;

fn grafo_del_tesoro() -> Grafo {
    let mut g = Grafo::new(6);
    g.nombres = vec![
        "Beach".to_string(),
        "Cave".to_string(),
        "Mountain".to_string(),
        "Forest".to_string(),
        "Woods".to_string(),
        "Treasure".to_string(),
    ];
    g.agregar_arista_no_dirigida(BEACH, CAVE, 3);
    g.agregar_arista_no_dirigida(BEACH, FOREST, 5);
    g.agregar_arista_no_dirigida(CAVE, MOUNTAIN, 2);
    g.agregar_arista_no_dirigida(FOREST, WOODS, 1);
    g.agregar_arista_no_dirigida(MOUNTAIN, TREASURE, 4);
    g.agregar_arista_no_dirigida(WOODS, TREASURE, 6);
    g
}

fn costo_total(g: &Grafo, ruta: &[usize]) -> u32 {
    let mut total: u32 = 0;
    for par in ruta.windows(2) {
        let arista = g.adyacencia[par[0]]
            .iter()
            .find(|a| a.destino == par[1])
            .expect("la ruta usa una arista que no existe");
        total += arista.costo;
    }
    total
}

fn correr_dfs(
    g: &Grafo,
    ubicaciones: &mut Ubicaciones,
    inicio: usize,
    tesoro: usize,
) -> Option<Vec<usize>> {
    let mut camino_actual: Vec<usize> = Vec::new();
    let mut ruta_encontrada: Option<Vec<usize>> = None;
    let hallado = dfs_buscar_tesoro(
        g,
        ubicaciones,
        inicio,
        tesoro,
        &mut camino_actual,
        &mut ruta_encontrada,
    );
    assert_eq!(hallado, ruta_encontrada.is_some());
    if !hallado {
        assert!(camino_actual.is_empty());
    }
    ruta_encontrada
}

#[test]
fn dfs_sigue_las_pistas_sin_desviarse() {
    // Tabla de ubicaciones con la cadena Beach → Cave → Mountain → Treasure.
    let g = grafo_del_tesoro();
    let mut ubicaciones = inicializar_ubicaciones_vacias(6);
    ubicaciones[BEACH].next = Some(CAVE);
    ubicaciones[CAVE].next = Some(MOUNTAIN);
    ubicaciones[MOUNTAIN].next = Some(TREASURE);
    let ruta = correr_dfs(&g, &mut ubicaciones, BEACH, TREASURE).expect("debe hallar el tesoro");
    assert_eq!(ruta, vec![BEACH, CAVE, MOUNTAIN, TREASURE]);
    assert!(!ruta.contains(&FOREST));
    assert!(!ruta.contains(&WOODS));
}

#[test]
fn dfs_salta_la_pista_que_vuelve_a_la_ruta() {
    // La pista de Cave apunta de vuelta a Beach, que ya está en la ruta: se
    // salta, y los vecinos no visitados llevan igual al tesoro.
    let g = grafo_del_tesoro();
    let mut ubicaciones = inicializar_ubicaciones_vacias(6);
    ubicaciones[BEACH].next = Some(CAVE);
    ubicaciones[CAVE].next = Some(BEACH);
    let ruta = correr_dfs(&g, &mut ubicaciones, BEACH, TREASURE).expect("debe hallar el tesoro");
    assert_eq!(ruta[0], BEACH);
    assert_eq!(*ruta.last().unwrap(), TREASURE);
    assert_eq!(ruta, vec![BEACH, CAVE, MOUNTAIN, TREASURE]);
}

#[test]
fn dfs_sin_pistas_explora_vecinos_en_orden() {
    let g = grafo_del_tesoro();
    let mut ubicaciones = inicializar_ubicaciones_vacias(6);
    let ruta = correr_dfs(&g, &mut ubicaciones, BEACH, TREASURE).expect("debe hallar el tesoro");
    // Sin pistas, la DFS toma los vecinos en orden de inserción:
    // Beach → Cave → Mountain → Treasure.
    assert_eq!(ruta, vec![BEACH, CAVE, MOUNTAIN, TREASURE]);
    // La ruta no repite nodos.
    for (i, a) in ruta.iter().enumerate() {
        for b in &ruta[i + 1..] {
            assert_ne!(a, b);
        }
    }
}

#[test]
fn dfs_en_el_tesoro_devuelve_solo_ese_nodo() {
    let g = grafo_del_tesoro();
    let mut ubicaciones = inicializar_ubicaciones_vacias(6);
    let ruta = correr_dfs(&g, &mut ubicaciones, TREASURE, TREASURE).expect("ya está en el tesoro");
    assert_eq!(ruta, vec![TREASURE]);
}

#[test]
fn dfs_no_halla_lo_inalcanzable() {
    // Una isla de dos nodos separada del resto.
    let mut g = Grafo::new(4);
    g.nombres = vec![
        "A".to_string(),
        "B".to_string(),
        "C".to_string(),
        "D".to_string(),
    ];
    g.agregar_arista_no_dirigida(0, 1, 1);
    g.agregar_arista_no_dirigida(2, 3, 1);
    let mut ubicaciones = inicializar_ubicaciones_vacias(4);
    assert!(correr_dfs(&g, &mut ubicaciones, 0, 3).is_none());
}

#[test]
fn dfs_con_pista_desviada_llega_igual() {
    // La pista de Beach manda al bosque: la DFS la respeta antes que a los
    // vecinos y llega por el lado caro.
    let g = grafo_del_tesoro();
    let mut ubicaciones = inicializar_ubicaciones_vacias(6);
    ubicaciones[BEACH].next = Some(FOREST);
    let ruta = correr_dfs(&g, &mut ubicaciones, BEACH, TREASURE).expect("debe hallar el tesoro");
    assert_eq!(ruta, vec![BEACH, FOREST, WOODS, TREASURE]);
}

#[test]
fn dfs_retrocede_de_un_callejon_sin_salida() {
    // Un acantilado colgado de la playa; la pista manda ahí. La DFS entra,
    // agota la rama, retrocede, y el nodo vuelve a quedar fuera de la ruta.
    let mut g = Grafo::new(7);
    g.nombres = vec![
        "Beach".to_string(),
        "Cave".to_string(),
        "Mountain".to_string(),
        "Forest".to_string(),
        "Woods".to_string(),
        "Treasure".to_string(),
        "Cliff".to_string(),
    ];
    g.agregar_arista_no_dirigida(BEACH, CAVE, 3);
    g.agregar_arista_no_dirigida(CAVE, MOUNTAIN, 2);
    g.agregar_arista_no_dirigida(MOUNTAIN, TREASURE, 4);
    g.agregar_arista_no_dirigida(BEACH, 6, 1);
    let mut ubicaciones = inicializar_ubicaciones_vacias(7);
    ubicaciones[BEACH].next = Some(6);
    let ruta = correr_dfs(&g, &mut ubicaciones, BEACH, TREASURE).expect("debe hallar el tesoro");
    assert_eq!(ruta, vec![BEACH, CAVE, MOUNTAIN, TREASURE]);
    assert!(!ruta.contains(&6));
}

#[test]
fn dijkstra_elige_la_ruta_de_costo_nueve() {
    let g = grafo_del_tesoro();
    let ruta = dijkstra_ruta_minima(&g, BEACH, TREASURE);
    assert_eq!(ruta, vec![BEACH, CAVE, MOUNTAIN, TREASURE]);
    assert_eq!(costo_total(&g, &ruta), 9);
    // La alternativa Beach-Forest-Woods-Treasure costaría 12.
    assert_eq!(
        costo_total(&g, &[BEACH, FOREST, WOODS, TREASURE]),
        12
    );
}

#[test]
fn dijkstra_del_tesoro_a_la_playa() {
    let g = grafo_del_tesoro();
    let ruta = dijkstra_ruta_minima(&g, TREASURE, BEACH);
    assert_eq!(ruta, vec![TREASURE, MOUNTAIN, CAVE, BEACH]);
    assert_eq!(costo_total(&g, &ruta), 9);
}

#[test]
fn dijkstra_mismo_origen_y_destino() {
    let g = grafo_del_tesoro();
    let ruta = dijkstra_ruta_minima(&g, CAVE, CAVE);
    assert_eq!(ruta, vec![CAVE]);
}

#[test]
fn dijkstra_sin_camino_devuelve_vacio() {
    let mut g = Grafo::new(4);
    g.nombres = vec![
        "A".to_string(),
        "B".to_string(),
        "C".to_string(),
        "D".to_string(),
    ];
    g.agregar_arista_no_dirigida(0, 1, 2);
    g.agregar_arista_no_dirigida(2, 3, 2);
    assert!(dijkstra_ruta_minima(&g, 0, 3).is_empty());
    assert!(!dijkstra_ruta_minima(&g, 0, 1).is_empty());
}

#[test]
fn dijkstra_prefiere_muchos_pasos_baratos() {
    // 0-1-2-3 con costos 1, contra la arista directa 0-3 de costo 10.
    let mut g = Grafo::new(4);
    g.nombres = vec![
        "A".to_string(),
        "B".to_string(),
        "C".to_string(),
        "D".to_string(),
    ];
    g.agregar_arista_no_dirigida(0, 3, 10);
    g.agregar_arista_no_dirigida(0, 1, 1);
    g.agregar_arista_no_dirigida(1, 2, 1);
    g.agregar_arista_no_dirigida(2, 3, 1);
    let ruta = dijkstra_ruta_minima(&g, 0, 3);
    assert_eq!(ruta, vec![0, 1, 2, 3]);
    assert_eq!(costo_total(&g, &ruta), 3);
}

#[test]
fn dijkstra_con_costo_saturado_trata_el_tope_como_infinito() {
    // Una arista de costo u32::MAX lleva la distancia al tope, que es el
    // centinela de "inalcanzable": la ruta vuelve vacía.
    let mut g = Grafo::new(2);
    g.nombres = vec!["A".to_string(), "B".to_string()];
    g.agregar_arista_no_dirigida(0, 1, u32::MAX);
    assert!(dijkstra_ruta_minima(&g, 0, 1).is_empty());
}

#[test]
fn dijkstra_costo_cero_tambien_llega() {
    let mut g = Grafo::new(3);
    g.nombres = vec!["A".to_string(), "B".to_string(), "C".to_string()];
    g.agregar_arista_no_dirigida(0, 1, 0);
    g.agregar_arista_no_dirigida(1, 2, 0);
    let ruta = dijkstra_ruta_minima(&g, 0, 2);
    assert_eq!(ruta, vec![0, 1, 2]);
    assert_eq!(costo_total(&g, &ruta), 0);
}
