use nomarch::config::Config;
use nomarch::pipeline::{Pipeline, Service};

fn service(name: &str, required: bool) -> Service {
    Service { name: name.to_string(), children: vec![], required }
}

fn pipeline(name: &str, services: Vec<Service>) -> Pipeline {
    Pipeline {
        name: name.to_string(),
        max_seconds_to_reach_end: 10,
        seconds_from_startup_to_ignore_event_evaluation: 0,
        services,
    }
}

#[test]
fn masks_of_two_required_and_one_optional_service() {
    let p = pipeline("p", vec![service("a", true), service("b", true), service("c", false)]);
    assert_eq!(p.completed_services_mask(), 0b111);
    assert_eq!(p.required_services_mask(), 0b011);
}

#[test]
fn masks_of_an_empty_pipeline() {
    let p = pipeline("p", vec![]);
    assert_eq!(p.completed_services_mask(), 0);
    assert_eq!(p.required_services_mask(), 0);
}

#[test]
fn masks_of_a_pipeline_of_32_services() {
    let services: Vec<Service> = (0..32).map(|i| service(&format!("s{}", i), i % 2 == 1)).collect();
    let p = pipeline("p", services);
    assert_eq!(p.completed_services_mask(), u32::MAX);
    assert_eq!(p.required_services_mask(), 0xAAAA_AAAA);
}

#[test]
fn service_mask_is_the_bit_of_the_service_position() {
    let config = Config {
        version: "1".to_string(),
        pipelines: vec![
            pipeline("orders", vec![service("api", true), service("billing", true), service("mail", false)]),
            pipeline("users", vec![service("api", true)]),
        ],
    };
    assert_eq!(config.get_service_mask("orders", "api"), Some(0b001));
    assert_eq!(config.get_service_mask("orders", "mail"), Some(0b100));
    assert_eq!(config.get_service_mask("users", "api"), Some(0b001));
    assert_eq!(config.get_service_mask("orders", "nope"), None);
    assert_eq!(config.get_service_mask("nope", "api"), None);
}

#[test]
fn service_mask_uses_the_first_match() {
    let config = Config {
        version: "1".to_string(),
        pipelines: vec![
            pipeline("p", vec![service("x", true), service("y", true), service("y", true)]),
            pipeline("p", vec![service("z", true)]),
        ],
    };
    assert_eq!(config.get_service_mask("p", "y"), Some(0b010));
    assert_eq!(config.get_service_mask("p", "z"), None);
}
