use std::collections::HashMap;

use sahi::error::Error;
use sahi::model::{Category, CategoryMapping, CategoryRemapper, Device};
use sahi::onnx::session::ExecutionProvider;

#[test]
fn test_device_parse() {
    assert_eq!("cpu".parse::<Device>().unwrap(), Device::Cpu);
    assert_eq!("cuda".parse::<Device>().unwrap(), Device::Cuda(0));
    assert_eq!("cuda:0".parse::<Device>().unwrap(), Device::Cuda(0));
    assert_eq!("cuda:1".parse::<Device>().unwrap(), Device::Cuda(1));
    assert_eq!("mps".parse::<Device>().unwrap(), Device::Mps);
    assert_eq!("auto".parse::<Device>().unwrap(), Device::Auto);
}

#[test]
fn test_device_display() {
    assert_eq!(Device::Cpu.as_str(), "cpu");
    assert_eq!(Device::Cuda(0).as_str(), "cuda:0");
    assert_eq!(Device::Cuda(1).as_str(), "cuda:1");
    assert_eq!(Device::Mps.as_str(), "mps");
}

#[test]
fn device_parse_ignores_case() {
    assert_eq!(Device::parse("CUDA:12").unwrap(), Device::Cuda(12));
    assert_eq!(Device::parse("Cpu").unwrap(), Device::Cpu);
    assert_eq!(Device::parse("AUTO").unwrap(), Device::Auto);
}

#[test]
fn device_parse_errors() {
    match Device::parse("tpu") {
        Err(Error::Config(m)) => assert_eq!(m, "unknown device: tpu"),
        other => panic!("unexpected {:?}", other),
    }
    match Device::parse("cuda:x") {
        Err(Error::Config(m)) => assert_eq!(m, "invalid CUDA device index: cuda:x"),
        other => panic!("unexpected {:?}", other),
    }
    assert!(Device::parse("cuda:4294967296").is_err());
    assert!(Device::parse("cuda:").is_err());
}

#[test]
fn device_predicates_and_resolve() {
    assert!(Device::Cuda(3).is_gpu());
    assert!(Device::Mps.is_gpu());
    assert!(!Device::Cpu.is_gpu());
    assert!(Device::Cpu.is_cpu());
    assert_eq!(Device::cuda(), Device::Cuda(0));
    assert_eq!(Device::cuda_with_index(5), Device::Cuda(5));
    assert_eq!(Device::Auto.resolve(), Device::Cuda(0));
    assert_eq!(Device::Mps.resolve(), Device::Mps);
    assert_eq!(Device::default(), Device::Cpu);
}

#[test]
fn test_execution_provider_from_device() {
    assert_eq!(ExecutionProvider::from(Device::Cpu), ExecutionProvider::Cpu);
}

#[test]
fn execution_provider_for_each_device() {
    assert_eq!(ExecutionProvider::from(Device::Cuda(2)), ExecutionProvider::Cuda { device_id: 2 });
    assert_eq!(ExecutionProvider::from(Device::Mps), ExecutionProvider::Cpu);
    assert_eq!(ExecutionProvider::from(Device::Auto), ExecutionProvider::Cuda { device_id: 0 });
    assert_eq!(ExecutionProvider::cuda_with_device(3), ExecutionProvider::Cuda { device_id: 3 });
    assert_eq!(ExecutionProvider::tensorrt(), ExecutionProvider::TensorRT { device_id: 0 });
    assert_eq!(ExecutionProvider::default(), ExecutionProvider::cpu());
}

#[test]
fn test_category() {
    let cat = Category::new(0, "person");
    assert_eq!(cat.id, 0);
    assert_eq!(cat.name(), "person");

    // Test cheap cloning: the clone shares the name.
    let cat2 = cat.clone();
    assert!(std::ptr::eq(cat.name(), cat2.name()));
}

#[test]
fn test_category_from_static() {
    let cat = Category::from_static(1, "car");
    assert_eq!(cat.id, 1);
    assert_eq!(cat.name(), "car");
}

#[test]
fn category_accessors_and_repr() {
    let cat = Category::py_new(7, "person".to_string());
    assert_eq!(cat.get_id(), 7);
    assert_eq!(cat.get_name(), "person");
    assert_eq!(cat.__repr__(), "Category(id=7, name='person')");
}

#[test]
fn test_category_mapping() {
    let mut mapping = CategoryMapping::new();
    mapping.insert(0, "person");
    mapping.insert(1, "car");
    mapping.insert(2, "bicycle");

    assert_eq!(mapping.len(), 3);
    assert_eq!(mapping.get_name(0), Some("person"));
    assert_eq!(mapping.get_id("car"), Some(1));
    assert!(mapping.get(3).is_none());
}

#[test]
fn category_mapping_insert_replaces_and_returns_previous() {
    let mut mapping = CategoryMapping::default();
    assert!(mapping.is_empty());
    assert!(mapping.insert(4, "dog").is_none());
    let prev = mapping.insert(4, "cat").expect("id 4 was present");
    assert_eq!((prev.id, prev.name()), (4, "dog"));
    assert_eq!(mapping.len(), 1);
    assert_eq!(mapping.get_name(4), Some("cat"));
    // The old name still denotes the id; the new one does too.
    assert_eq!(mapping.get_id("dog"), Some(4));
    assert_eq!(mapping.get_id("cat"), Some(4));
    assert_eq!(mapping.get_id("cow"), None);
    let copy = mapping.clone();
    assert_eq!(copy.get_name(4), Some("cat"));
    let all = mapping.iter();
    assert_eq!(all.len(), 1);
    assert_eq!(all[0].name(), "cat");
}

#[test]
fn test_category_remapper() {
    let mapping = CategoryMapping::from_pairs(vec![
        (0, "person"),
        (1, "car"),
        (2, "bicycle"),
    ]);

    let remap = vec![("person".to_string(), 10), ("car".to_string(), 20)];

    let remapper = mapping.create_remapper(&remap);

    assert_eq!(remapper.remap_id(0), 10);
    assert_eq!(remapper.remap_id(2), 2); // Not in remap, unchanged
}

#[test]
fn remapper_later_pair_wins_and_unknown_names_are_skipped() {
    let mapping = CategoryMapping::from_pairs(vec![(3, "a"), (3, "b")]);
    let remap = vec![("a".to_string(), 5), ("zzz".to_string(), 9), ("b".to_string(), 7)];
    let remapper = mapping.create_remapper(&remap);
    assert_eq!(remapper.remap_id(3), 7);
    assert_eq!(remapper.remap_id(9), 9);
    assert!(!remapper.is_empty());
    assert!(CategoryRemapper::new().is_empty());
    let direct = CategoryRemapper::from_id_map(HashMap::from([(1u32, 2u32)]));
    assert_eq!(direct.remap_id(1), 2);
    assert_eq!(direct.remap_id(2), 2);
}

#[test]
fn device_display_parses_back() {
    for d in [Device::Cpu, Device::Cuda(0), Device::Cuda(7), Device::Cuda(u32::MAX), Device::Mps, Device::Auto] {
        assert_eq!(Device::parse(&d.as_str()).unwrap(), d);
        assert_eq!(Device::from_lowercase(&d.as_str()).unwrap(), d);
    }
}

#[test]
fn defaults_are_cpu_and_empty() {
    assert_eq!(Device::default(), Device::Cpu);
    assert!(CategoryRemapper::default().is_empty());
    assert_eq!(CategoryRemapper::default().remap_id(5), 5);
    assert_eq!(ExecutionProvider::default(), ExecutionProvider::Cpu);
    assert_eq!(ExecutionProvider::default(), ExecutionProvider::from(Device::Cpu));
}

#[test]
fn device_index_parsing_edges() {
    assert_eq!(Device::parse("cuda:4294967295").ok(), Some(Device::Cuda(4294967295)));
    assert_eq!(Device::parse("cuda:+7").ok(), Some(Device::Cuda(7)));
    assert_eq!(Device::parse("cuda:007").ok(), Some(Device::Cuda(7)));
    assert!(Device::parse("cuda:+").is_err());
    assert!(Device::parse("cuda:-0").is_err());
    assert!(Device::parse("cuda:1 ").is_err());
    assert!(Device::parse("cuda:99999999999999999999").is_err());
    assert_eq!(Device::Cuda(4294967295).as_str(), "cuda:4294967295");
}

#[test]
fn auto_resolves_to_cuda_in_this_build() {
    assert!(sahi::model::CUDA);
    assert_eq!(Device::Auto.resolve(), Device::Cuda(0));
    assert_eq!(Device::Mps.resolve(), Device::Mps);
    assert_eq!(Device::Cuda(2).resolve(), Device::Cuda(2));
}
