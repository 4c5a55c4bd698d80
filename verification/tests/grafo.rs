use caza_tesoro::graph::{Arista, Grafo};
use caza_tesoro::ubication::{inicializar_ubicaciones_vacias, InfoUbicacion};

fn tiene_arista(adyacencia: &Vec<Arista>, destino: usize, costo: u32) -> bool {
    adyacencia
        .iter()
        .any(|a| a.destino == destino && a.costo == costo)
}

#[test]
fn grafo_nuevo_vacio() {
    let g = Grafo::new(4);
    assert_eq!(g.nombres.len(), 0);
    assert_eq!(g.adyacencia.len(), 4);
    for lista in &g.adyacencia {
        assert!(lista.is_empty());
    }
}

#[test]
fn arista_no_dirigida_deja_la_vuelta_con_igual_costo() {
    let mut g = Grafo::new(3);
    g.nombres = vec!["A".to_string(), "B".to_string(), "C".to_string()];
    g.agregar_arista_no_dirigida(0, 2, 7);
    assert!(tiene_arista(&g.adyacencia[0], 2, 7));
    assert!(tiene_arista(&g.adyacencia[2], 0, 7));
    assert!(g.adyacencia[1].is_empty());
}

#[test]
fn arista_conserva_orden_de_insercion() {
    let mut g = Grafo::new(3);
    g.agregar_arista_no_dirigida(0, 1, 3);
    g.agregar_arista_no_dirigida(0, 2, 5);
    assert_eq!(g.adyacencia[0][0].destino, 1);
    assert_eq!(g.adyacencia[0][0].costo, 3);
    assert_eq!(g.adyacencia[0][1].destino, 2);
    assert_eq!(g.adyacencia[0][1].costo, 5);
}

#[test]
fn indice_por_nombre_encuentra_y_rechaza() {
    let mut g = Grafo::new(2);
    g.nombres = vec!["Beach".to_string(), "Cave".to_string()];
    assert_eq!(g.indice_por_nombre("Beach"), Some(0));
    assert_eq!(g.indice_por_nombre("Cave"), Some(1));
    assert_eq!(g.indice_por_nombre("Treasure"), None);
    assert_eq!(g.indice_por_nombre("beach"), None);
}

#[test]
fn ubicaciones_vacias_inicializadas() {
    let u = inicializar_ubicaciones_vacias(3);
    assert_eq!(u.len(), 3);
    for entrada in &u {
        assert_eq!(entrada.pista, "");
        assert_eq!(entrada.next, None);
        assert!(!entrada.visitado);
    }
}

#[test]
fn info_ubicacion_se_puede_armar_a_mano() {
    let entrada = InfoUbicacion {
        pista: "El sol brilla".to_string(),
        next: Some(1),
        visitado: false,
    };
    assert_eq!(entrada.next, Some(1));
    assert_eq!(entrada.pista, "El sol brilla");
}
