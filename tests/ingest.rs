use nomarch::config::Config;
use nomarch::ingest::{batch_for_request, collect_ids, parse_ids, RequestError};
use nomarch::pipeline::{Pipeline, Service};

fn config() -> Config {
    Config {
        version: "1".to_string(),
        pipelines: vec![Pipeline {
            name: "orders".to_string(),
            max_seconds_to_reach_end: 10,
            seconds_from_startup_to_ignore_event_evaluation: 0,
            services: vec![
                Service { name: "api".to_string(), children: vec!["billing".to_string()], required: true },
                Service { name: "billing".to_string(), children: vec![], required: true },
            ],
        }],
    }
}

#[test]
fn parse_ids_keeps_valid_uuids_in_order() {
    let raw = vec![
        "67e55044-10b1-426f-9247-bb680e5fe0c8".to_string(),
        "not a uuid".to_string(),
        "00000000-0000-0000-0000-000000000001".to_string(),
        "".to_string(),
    ];
    assert_eq!(parse_ids(&raw), vec![0x67e55044_10b1_426f_9247_bb680e5fe0c8u128, 1u128]);
}

#[test]
fn collect_ids_drops_absent_values() {
    assert_eq!(collect_ids(&vec![Some(3), None, Some(1), None]), vec![3, 1]);
    assert_eq!(collect_ids(&vec![]), Vec::<u128>::new());
}

#[test]
fn batch_for_known_service() {
    let raw = vec!["67e55044-10b1-426f-9247-bb680e5fe0c8".to_string(), "zzz".to_string()];
    let batch = batch_for_request(&config(), "orders", "billing", &raw).unwrap();
    assert_eq!(batch.service_mask, 0b10);
    assert_eq!(batch.events, vec![0x67e55044_10b1_426f_9247_bb680e5fe0c8u128]);
}

#[test]
fn batch_for_unknown_pipeline_is_refused() {
    let r = batch_for_request(&config(), "users", "api", &vec![]);
    assert!(matches!(r, Err(RequestError::PipelineNotFound)));
}

#[test]
fn batch_for_unknown_service_is_refused() {
    let r = batch_for_request(&config(), "orders", "mail", &vec![]);
    assert!(matches!(r, Err(RequestError::ServiceNotFound)));
}
