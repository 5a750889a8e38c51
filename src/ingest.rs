use vstd::prelude::*;
use crate::config::{Config, has_name, pipeline_names, service_mask_of};
use crate::processor::EventBatch;

verus! {

/// The 128-bit value of the UUID that `s` spells, or nothing if `s` spells none.
pub uninterp spec fn uuid_value(s: Seq<char>) -> Option<u128>;

/// Relies on uuid::Uuid::parse_str, and Uuid::as_u128 for the value of a parsed UUID: the
/// result depends on the text alone.
#[verifier::external_body]
fn parse_uuid(s: &str) -> (r: Option<u128>)
    ensures
        r == uuid_value(s@),
{
    match uuid::Uuid::parse_str(s) {
        Ok(u) => Some(u.as_u128()),
        Err(_) => None,
    }
}

/// The present values, in order.
pub open spec fn present(parsed: Seq<Option<u128>>) -> Seq<u128>
    decreases parsed.len(),
{
    if parsed.len() == 0 {
        Seq::empty()
    } else {
        let before = present(parsed.drop_last());
        match parsed.last() {
            Some(id) => before.push(id),
            None => before,
        }
    }
}

pub open spec fn parsed_ids(raw: Seq<String>) -> Seq<u128> {
    present(raw.map_values(|s: String| uuid_value(s@)))
}

/// Why a report is refused before it reaches any pipeline.
#[derive(Debug, Clone, Copy, PartialEq, Eq)]
pub enum RequestError {
    PipelineNotFound,
    ServiceNotFound,
}

/// Keeps the ids that parsed, in order, and drops the rest.
pub fn collect_ids(parsed: &Vec<Option<u128>>) -> (ids: Vec<u128>)
    ensures
        ids@ == present(parsed@),
{
    let mut ids: Vec<u128> = Vec::new();
    let mut i: usize = 0;
    while i < parsed.len()
        invariant
            i <= parsed@.len(),
            ids@ == present(parsed@.take(i as int)),
        decreases parsed@.len() - i,
    {
        proof {
            assert(parsed@.take(i + 1).drop_last() =~= parsed@.take(i as int));
        }
        match parsed[i] {
            Some(id) => ids.push(id),
            None => {},
        }
        i = i + 1;
    }
    proof {
        assert(parsed@.take(parsed@.len() as int) =~= parsed@);
    }
    ids
}

/// The ids of a report: each text that spells a UUID, as its 128-bit value, in order.
/// Texts that spell none are dropped.
pub fn parse_ids(raw: &Vec<String>) -> (ids: Vec<u128>)
    ensures
        ids@ == parsed_ids(raw@),
{
    let mut parsed: Vec<Option<u128>> = Vec::new();
    let mut i: usize = 0;
    while i < raw.len()
        invariant
            i <= raw@.len(),
            parsed@ == raw@.take(i as int).map_values(|s: String| uuid_value(s@)),
        decreases raw@.len() - i,
    {
        let id = parse_uuid(raw[i].as_str());
        parsed.push(id);
        proof {
            assert(parsed@ =~= raw@.take(i + 1).map_values(|s: String| uuid_value(s@)));
        }
        i = i + 1;
    }
    proof {
        assert(raw@.take(raw@.len() as int) =~= raw@);
    }
    collect_ids(&parsed)
}

/// Turns a report "service `service` of pipeline `pipeline` saw `events`" into a batch for
/// that pipeline: its service bit and the ids that parse. Unknown pipelines and services
/// are refused.
pub fn batch_for_request(config: &Config, pipeline: &str, service: &str, events: &Vec<String>) -> (r:
    Result<EventBatch, RequestError>)
    requires
        config.wf(),
    ensures
        !has_name(pipeline_names(config.pipelines@), pipeline@) ==> r == Err::<
            EventBatch,
            RequestError,
        >(RequestError::PipelineNotFound),
        has_name(pipeline_names(config.pipelines@), pipeline@) && service_mask_of(
            config.pipelines@,
            pipeline@,
            service@,
        ) is None ==> r == Err::<EventBatch, RequestError>(RequestError::ServiceNotFound),
        service_mask_of(config.pipelines@, pipeline@, service@) is Some ==> r is Ok,
        r is Ok ==> r->Ok_0.service_mask == service_mask_of(
            config.pipelines@,
            pipeline@,
            service@,
        )->Some_0 && r->Ok_0.events@ == parsed_ids(events@),
{
    let service_mask = match config.get_service_mask(pipeline, service) {
        Some(mask) => mask,
        None => {
            if has_pipeline(config, pipeline) {
                return Err(RequestError::ServiceNotFound);
            }
            return Err(RequestError::PipelineNotFound);
        },
    };
    let events = parse_ids(events);
    Ok(EventBatch { service_mask, events })
}

fn has_pipeline(config: &Config, pipeline: &str) -> (r: bool)
    ensures
        r == has_name(pipeline_names(config.pipelines@), pipeline@),
{
    let name = pipeline.to_owned();
    let ghost names = pipeline_names(config.pipelines@);
    let mut i: usize = 0;
    while i < config.pipelines.len()
        invariant
            i <= config.pipelines@.len(),
            names == pipeline_names(config.pipelines@),
            name@ == pipeline@,
            forall|j: int| 0 <= j < i ==> names[j] != pipeline@,
        decreases config.pipelines@.len() - i,
    {
        if config.pipelines[i].name == name {
            proof {
                crate::config::lemma_first_index_unique(names, pipeline@, i as int);
            }
            return true;
        }
        i = i + 1;
    }
    proof {
        if has_name(names, pipeline@) {
            let w = crate::config::first_index(names, pipeline@);
            assert(crate::config::is_first_index(names, pipeline@, w));
        }
    }
    false
}

} // verus!
