use caza_tesoro::decision::{construir_arbol_decision_ejemplo, NodoDecision};

#[test]
fn hoja_sola_decide_sin_mirar_la_pista() {
    let hoja = NodoDecision::nueva_hoja(5);
    assert_eq!(hoja.interpretar(""), Some(5));
    assert_eq!(hoja.interpretar("cualquier texto"), Some(5));
    assert_eq!(hoja.interpretar("BRILLA SOL CIMA"), Some(5));
}

#[test]
fn nodo_interno_baja_por_la_rama_que_toca() {
    let arbol = NodoDecision::nuevo_nodo(
        "sol",
        Some(NodoDecision::nueva_hoja(1)),
        Some(NodoDecision::nueva_hoja(2)),
    );
    assert_eq!(arbol.interpretar("hay sol aqui"), Some(1));
    assert_eq!(arbol.interpretar("todo oscuro"), Some(2));
}

#[test]
fn la_clave_y_la_pista_se_comparan_en_minusculas() {
    // La clave se guarda en minúsculas al construir; la pista se pasa a
    // minúsculas al interpretar. Si alguno de los dos pasos no bajara a
    // minúsculas, estas pistas no casarían con la clave.
    let arbol = NodoDecision::nuevo_nodo(
        "SOL",
        Some(NodoDecision::nueva_hoja(1)),
        Some(NodoDecision::nueva_hoja(2)),
    );
    assert_eq!(arbol.interpretar("EL SOL BRILLA"), Some(1));
    assert_eq!(arbol.interpretar("el sol brilla"), Some(1));
    assert_eq!(arbol.interpretar("girasol"), Some(1));
    assert_eq!(arbol.interpretar("luna"), Some(2));
}

#[test]
fn rama_ausente_corta_sin_resultado() {
    let solo_verdadero = NodoDecision::nuevo_nodo("sol", Some(NodoDecision::nueva_hoja(1)), None);
    assert_eq!(solo_verdadero.interpretar("hay sol"), Some(1));
    assert_eq!(solo_verdadero.interpretar("oscuro"), None);

    let solo_falso = NodoDecision::nuevo_nodo("sol", None, Some(NodoDecision::nueva_hoja(2)));
    assert_eq!(solo_falso.interpretar("hay sol"), None);
    assert_eq!(solo_falso.interpretar("oscuro"), Some(2));
}

#[test]
fn arbol_de_ejemplo_interpreta_las_pistas() {
    let arbol = construir_arbol_decision_ejemplo();
    assert_eq!(arbol.interpretar("algo brilla a lo lejos"), Some(0));
    assert_eq!(arbol.interpretar("el sol pega fuerte"), Some(1));
    assert_eq!(arbol.interpretar("un árbol enorme"), Some(3));
    assert_eq!(arbol.interpretar("se oye un murmullo"), Some(4));
    assert_eq!(arbol.interpretar("desde la cima se ve todo"), Some(2));
    assert_eq!(arbol.interpretar("nada de esto"), Some(5));
}

#[test]
fn arbol_de_ejemplo_sigue_el_primer_corte_que_casa() {
    let arbol = construir_arbol_decision_ejemplo();
    // Una pista con varias palabras clave solo sigue el primer corte:
    // "brilla" se prueba antes que "sol" y que "cima".
    assert_eq!(arbol.interpretar("brilla el sol en la cima"), Some(0));
    // Sin "brilla", gana "sol" sobre "cima".
    assert_eq!(arbol.interpretar("el sol sobre la cima"), Some(1));
}

#[test]
fn arbol_de_ejemplo_en_mayusculas() {
    let arbol = construir_arbol_decision_ejemplo();
    assert_eq!(arbol.interpretar("BRILLA"), Some(0));
    assert_eq!(arbol.interpretar("LA CIMA"), Some(2));
}
