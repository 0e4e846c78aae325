use lib::files::{calculoHash, verificar_hash, Caminho, BASE_PATH};
use std::path::Path;
use lib::hex::bytes_to_hex_string;

#[test]
fn calculo_hash_of_contents() {
    assert_eq!(
        bytes_to_hex_string(&calculoHash(b"abc")),
        "ba7816bf8f01cfea414140de5dae2223b00361a396177a9cb410ff61f20015ad"
    );
}

#[test]
fn verificar_hash_ignores_case() {
    let hash = calculoHash(b"abc");
    assert!(verificar_hash(
        &hash,
        "ba7816bf8f01cfea414140de5dae2223b00361a396177a9cb410ff61f20015ad"
    ));
    assert!(verificar_hash(
        &hash,
        "BA7816BF8F01CFEA414140DE5DAE2223B00361A396177A9CB410FF61F20015AD"
    ));
    assert!(!verificar_hash(
        &hash,
        "ba7816bf8f01cfea414140de5dae2223b00361a396177a9cb410ff61f20015ae"
    ));
    assert!(!verificar_hash(&hash, "ba7816bf"));
    assert!(!verificar_hash(&hash, ""));
}

#[test]
fn caminho_ends_with_file_name() {
    let caminho = Caminho("Pedro.png");
    assert!(caminho.ends_with("Pedro.png"));
    assert_eq!(caminho.file_name().and_then(|n| n.to_str()), Some("Pedro.png"));
}

#[test]
fn caminho_last_component_is_file_name() {
    let caminho = Caminho("relatorio final.txt");
    let ultimo = caminho.components().last().map(|c| c.as_os_str().to_str().map(|s| s.to_string()));
    assert_eq!(ultimo, Some(Some("relatorio final.txt".to_string())));
}

#[test]
fn caminho_is_base_path_then_file_name() {
    let caminho = Caminho("Pedro.png");
    assert_eq!(caminho.parent(), Some(Path::new(BASE_PATH)));
    let mut esperado: Vec<_> =
        Path::new(BASE_PATH).components().map(|c| c.as_os_str().to_os_string()).collect();
    esperado.push("Pedro.png".into());
    let obtido: Vec<_> = caminho.components().map(|c| c.as_os_str().to_os_string()).collect();
    assert_eq!(obtido, esperado);
}

#[test]
fn caminho_text_is_base_separator_name() {
    let caminho = Caminho("Pedro.png");
    let texto = caminho.to_string_lossy().into_owned();
    let com_barra = format!("{}/{}", BASE_PATH, "Pedro.png");
    let com_contrabarra = format!("{}\\{}", BASE_PATH, "Pedro.png");
    assert!(texto == com_barra || texto == com_contrabarra);
}
