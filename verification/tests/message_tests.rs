use lib::message::{codificar_mensagem_autenticada, decodificar_mensagem_autenticada};

#[test]
fn codificar_exact_output() {
    assert_eq!(
        codificar_mensagem_autenticada("Olá, mundo!", "chave"),
        "T2zDoSwgbXVuZG8h:ccd2d261bcb339471e22d7d19ed48f16a01052b839237ced20785481ed50f906"
    );
    assert_eq!(
        codificar_mensagem_autenticada("mensagem secreta", "segredo"),
        "bWVuc2FnZW0gc2VjcmV0YQ==:72027ca458172a515de517c1773b33133cbd92c94a7e9eb83c768997fb704e26"
    );
}

#[test]
fn decodificar_roundtrip() {
    for (texto, chave) in [("Olá, mundo!", "chave"), ("", ""), ("a:b:c", "k"), ("ção", "é")] {
        let mensagem = codificar_mensagem_autenticada(texto, chave);
        assert_eq!(decodificar_mensagem_autenticada(&mensagem, chave), Ok(texto.to_string()));
    }
}

#[test]
fn decodificar_wrong_key() {
    let mensagem = codificar_mensagem_autenticada("Olá, mundo!", "chave");
    assert_eq!(
        decodificar_mensagem_autenticada(&mensagem, "outra"),
        Err("Autenticação falhou: A mensagem pode ter sido adulterada".to_string())
    );
}

#[test]
fn decodificar_tampered_content() {
    let mensagem =
        "T2zDoSwgbXVuZG9h:ccd2d261bcb339471e22d7d19ed48f16a01052b839237ced20785481ed50f906";
    assert_eq!(
        decodificar_mensagem_autenticada(mensagem, "chave"),
        Err("Autenticação falhou: A mensagem pode ter sido adulterada".to_string())
    );
}

#[test]
fn decodificar_upper_case_mac_is_rejected() {
    let mensagem =
        "T2zDoSwgbXVuZG8h:CCD2D261BCB339471E22D7D19ED48F16A01052B839237CED20785481ED50F906";
    assert_eq!(
        decodificar_mensagem_autenticada(mensagem, "chave"),
        Err("Autenticação falhou: A mensagem pode ter sido adulterada".to_string())
    );
}

#[test]
fn decodificar_format_errors() {
    let erro = Err(
        "Formato inválido: A mensagem deve estar no formato 'conteudoBase64:hmacHex'".to_string(),
    );
    assert_eq!(decodificar_mensagem_autenticada("semdoispontos", "k"), erro);
    assert_eq!(decodificar_mensagem_autenticada("a:b:c", "k"), erro);
    assert_eq!(decodificar_mensagem_autenticada("", "k"), erro);
}

#[test]
fn decodificar_base64_error() {
    assert_eq!(
        decodificar_mensagem_autenticada("Zm9v!:abc", "k"),
        Err("Erro ao decodificar Base64: Caractere inválido encontrado: !".to_string())
    );
}

#[test]
fn decodificar_utf8_error() {
    assert_eq!(
        decodificar_mensagem_autenticada("/w==:abc", "k"),
        Err("Erro ao converter bytes decodificados para UTF-8".to_string())
    );
}

#[test]
fn decodificar_empty_parts() {
    // An empty text under the empty key: the digest of the empty message.
    assert_eq!(
        decodificar_mensagem_autenticada(
            ":e3b0c44298fc1c149afbf4c8996fb92427ae41e4649b934ca495991b7852b855",
            ""
        ),
        Ok(String::new())
    );
}
