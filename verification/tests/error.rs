use sahi::error::Error;

#[test]
fn error_constructors_pick_their_variant() {
    assert!(matches!(Error::inference("a".to_string()), Error::Inference(m) if m == "a"));
    assert!(matches!(Error::gpu("b".to_string()), Error::Gpu(m) if m == "b"));
    assert!(matches!(Error::config("c".to_string()), Error::Config(m) if m == "c"));
    assert!(matches!(Error::model_load("d".to_string()), Error::ModelLoad(m) if m == "d"));
    assert!(matches!(Error::model_not_found("e".to_string()), Error::ModelNotFound(m) if m == "e"));
    assert!(matches!(Error::onnx("f".to_string()), Error::Onnx(m) if m == "f"));
    assert!(matches!(Error::preprocessing("g".to_string()), Error::Preprocessing(m) if m == "g"));
    assert!(matches!(Error::invalid_output("h".to_string()), Error::InvalidOutput(m) if m == "h"));
}

#[test]
fn error_messages_name_the_kind_of_error() {
    assert_eq!(Error::inference("boom".to_string()).message(), "inference error: boom");
    assert_eq!(Error::gpu("no device".to_string()).message(), "GPU error: no device");
    assert_eq!(Error::config("bad".to_string()).message(), "configuration error: bad");
    assert_eq!(Error::model_load("x".to_string()).message(), "failed to load model: x");
    assert_eq!(
        Error::model_not_found("/m.onnx".to_string()).message(),
        "model file not found: /m.onnx"
    );
    assert_eq!(Error::onnx("y".to_string()).message(), "ONNX error: y");
    assert_eq!(Error::preprocessing("z".to_string()).message(), "preprocessing error: z");
    assert_eq!(Error::invalid_output("w".to_string()).message(), "invalid model output: w");
    assert_eq!(
        Error::ModelNotLoaded.message(),
        "model not loaded: call load() before predict()"
    );
    assert_eq!(
        Error::InvalidDimensions { width: 1920, height: 0 }.message(),
        "invalid image dimensions: 1920x0"
    );
    assert_eq!(
        Error::InvalidDimensions { width: 4294967295, height: 10 }.message(),
        "invalid image dimensions: 4294967295x10"
    );
}
