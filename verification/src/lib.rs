//! Búsqueda del tesoro sobre un grafo no dirigido con pistas por nodo.
//!
//! El grafo pesado vive en `graph`; la tabla de ubicaciones con pista y
//! sugerencia por nodo en `ubication`; el árbol de decisión que interpreta
//! pistas de texto en `decision`; los caminos como sucesiones de índices,
//! con sus lemas, en `caminos`; y los dos motores de búsqueda (DFS guiado
//! por pistas y Dijkstra) en `search`.

pub mod caminos;
pub mod decision;
pub mod graph;
pub mod search;
pub mod ubication;
