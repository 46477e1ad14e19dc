use voice2text::settings::{
    audio_devices, configured, device_entry, export_file_name, gguf_models, has_gguf_extension,
    is_model_file, model_file_choice, pick_model_file, transcript_file_name, DEFAULT_MODEL,
};

fn strings(v: &[&str]) -> Vec<String> {
    v.iter().map(|s| s.to_string()).collect()
}

#[test]
fn configured_values_are_trimmed() {
    assert_eq!(configured("  dev-1 "), Some("dev-1".to_string()));
    assert_eq!(configured("   "), None);
    assert_eq!(configured(""), None);
}

#[test]
fn model_file_defaults_to_the_bundled_model() {
    assert_eq!(model_file_choice(""), DEFAULT_MODEL);
    assert_eq!(model_file_choice("  "), "Qwen2.5-3B-Instruct-Q4_K_M.gguf");
    assert_eq!(model_file_choice(" my.gguf "), "my.gguf");
}

#[test]
fn export_names_are_made_safe() {
    assert_eq!(export_file_name("my notes/2024.txt"), "mynotes2024.txt");
    assert_eq!(export_file_name("a_b-c.d"), "a_b-c.d");
    assert_eq!(export_file_name("???"), "transcript-export.txt");
    assert_eq!(export_file_name(""), "transcript-export.txt");
    assert_eq!(export_file_name("café.txt"), "café.txt");
}

#[test]
fn gguf_extension_is_case_insensitive() {
    assert!(has_gguf_extension("model.gguf"));
    assert!(has_gguf_extension("model.GGUF"));
    assert!(has_gguf_extension("a.b.gguf"));
    assert!(!has_gguf_extension(".gguf"));
    assert!(!has_gguf_extension("a.gguf.bak"));
    assert!(!has_gguf_extension("gguf"));
    assert!(!has_gguf_extension("model.ggu"));
    assert!(!has_gguf_extension(".."));
}

#[test]
fn gguf_models_are_listed_sorted() {
    let names = strings(&["b.gguf", "a.txt", "A.gguf", "c.GGUF", "notes"]);
    assert_eq!(gguf_models(&names), strings(&["A.gguf", "b.gguf", "c.GGUF"]));
    assert_eq!(gguf_models(&vec![]), Vec::<String>::new());
}

#[test]
fn model_files_are_matched_by_kind_and_precision() {
    assert!(is_model_file("Encoder-epoch-99.int8.onnx", "encoder", true));
    assert!(!is_model_file("Encoder-epoch-99.int8.onnx", "encoder", false));
    assert!(is_model_file("encoder-epoch-99.onnx", "encoder", false));
    assert!(!is_model_file("encoder-epoch-99.onnx.txt", "encoder", false));
    assert!(!is_model_file("decoder.onnx", "encoder", false));
}

#[test]
fn plain_model_files_are_preferred() {
    let names = strings(&["decoder.onnx", "encoder.int8.onnx", "encoder.onnx"]);
    assert_eq!(pick_model_file(&names, "encoder"), Some(2));
    assert_eq!(pick_model_file(&names, "decoder"), Some(0));
    assert_eq!(pick_model_file(&strings(&["x", "joiner.int8.onnx"]), "joiner"), Some(1));
    assert_eq!(pick_model_file(&strings(&["a.txt"]), "encoder"), None);
}

#[test]
fn transcript_names_carry_the_stamp() {
    assert_eq!(transcript_file_name("20240101-120000"), "transcript-20240101-120000.txt");
}

#[test]
fn device_listing() {
    assert_eq!(
        device_entry(Some("id1".to_string()), None),
        Some(("id1".to_string(), "(unknown device)".to_string()))
    );
    assert_eq!(
        device_entry(Some("id2".to_string()), Some("Speakers".to_string())),
        Some(("id2".to_string(), "Speakers".to_string()))
    );
    assert_eq!(device_entry(Some(String::new()), Some("x".to_string())), None);
    assert_eq!(device_entry(None, Some("x".to_string())), None);

    let d = audio_devices(
        vec![("r1".to_string(), "Speakers".to_string()), ("r2".to_string(), "HDMI".to_string())],
        vec![("c1".to_string(), "Mic".to_string())],
    );
    assert_eq!(d.output.len(), 2);
    assert_eq!(d.output[1].id, "r2");
    assert_eq!(d.output[1].name, "HDMI");
    assert_eq!(d.input.len(), 1);
    assert_eq!(d.input[0].name, "Mic");
}
