use vstd::prelude::*;
use crate::pipeline::{Pipeline, Service};

verus! {

pub open spec fn pipeline_names(ps: Seq<Pipeline>) -> Seq<Seq<char>> {
    ps.map_values(|p: Pipeline| p.name@)
}

pub open spec fn service_names(ss: Seq<Service>) -> Seq<Seq<char>> {
    ss.map_values(|s: Service| s.name@)
}

/// `i` is the first position of `name` in `names`.
pub open spec fn is_first_index(names: Seq<Seq<char>>, name: Seq<char>, i: int) -> bool {
    &&& 0 <= i < names.len()
    &&& names[i] == name
    &&& forall|j: int| 0 <= j < i ==> names[j] != name
}

pub open spec fn has_name(names: Seq<Seq<char>>, name: Seq<char>) -> bool {
    exists|i: int| is_first_index(names, name, i)
}

pub open spec fn first_index(names: Seq<Seq<char>>, name: Seq<char>) -> int {
    choose|i: int| is_first_index(names, name, i)
}

/// The bit of service `service` in the first pipeline named `pipeline`, if both exist.
pub open spec fn service_mask_of(ps: Seq<Pipeline>, pipeline: Seq<char>, service: Seq<char>) -> Option<
    u32,
> {
    if has_name(pipeline_names(ps), pipeline) {
        let ss = service_names(ps[first_index(pipeline_names(ps), pipeline)].services@);
        if has_name(ss, service) {
            Some(1u32 << (first_index(ss, service) as u32))
        } else {
            None
        }
    } else {
        None
    }
}

pub proof fn lemma_first_index_unique(names: Seq<Seq<char>>, name: Seq<char>, i: int)
    requires
        is_first_index(names, name, i),
    ensures
        has_name(names, name),
        first_index(names, name) == i,
{
    let k = first_index(names, name);
    assert(is_first_index(names, name, k));
    if k < i {
        assert(names[k] != name);
    }
    if i < k {
        assert(names[i] != name);
    }
}

/// The static topology: every configured pipeline.
#[derive(Clone, Debug)]
pub struct Config {
    pub version: String,
    pub pipelines: Vec<Pipeline>,
}

impl Config {
    pub open spec fn wf(&self) -> bool {
        forall|i: int| 0 <= i < self.pipelines@.len() ==> (#[trigger] self.pipelines@[i]).wf()
    }

    /// Returns a bitmask that can be OR'd into an event's mask to record that the event has
    /// been seen by the named service of the named pipeline.
    pub fn get_service_mask(&self, pipeline_id: &str, service_id: &str) -> (r: Option<u32>)
        requires
            self.wf(),
        ensures
            r == service_mask_of(self.pipelines@, pipeline_id@, service_id@),
    {
        let ghost ps = self.pipelines@;
        let pipeline_name = pipeline_id.to_owned();
        let service_name = service_id.to_owned();
        let mut i: usize = 0;
        while i < self.pipelines.len()
            invariant
                i <= ps.len(),
                ps == self.pipelines@,
                self.wf(),
                pipeline_name@ == pipeline_id@,
                service_name@ == service_id@,
                forall|j: int| 0 <= j < i ==> pipeline_names(ps)[j] != pipeline_id@,
            decreases ps.len() - i,
        {
            if self.pipelines[i].name == pipeline_name {
                proof {
                    lemma_first_index_unique(pipeline_names(ps), pipeline_id@, i as int);
                }
                let services = &self.pipelines[i].services;
                let ghost ss = service_names(services@);
                proof {
                    assert(ps[i as int].wf());
                    assert(services@ == ps[i as int].services@);
                }
                let mut k: usize = 0;
                while k < services.len()
                    invariant
                        k <= services@.len(),
                        services@.len() <= 32,
                        ss == service_names(services@),
                        services@ == ps[i as int].services@,
                        ps == self.pipelines@,
                        i < ps.len(),
                        has_name(pipeline_names(ps), pipeline_id@),
                        first_index(pipeline_names(ps), pipeline_id@) == i,
                        service_name@ == service_id@,
                        forall|j: int| 0 <= j < k ==> ss[j] != service_id@,
                    decreases services@.len() - k,
                {
                    if services[k].name == service_name {
                        proof {
                            lemma_first_index_unique(ss, service_id@, k as int);
                        }
                        proof {
                            assert(service_mask_of(ps, pipeline_id@, service_id@) == Some(
                                1u32 << (k as u32),
                            ));
                        }
                        // toggles the bit that corresponds to the service's position
                        let mask: u32 = 1u32 << (k as u32);
                        return Some(mask);
                    }
                    k = k + 1;
                }
                proof {
                    if has_name(ss, service_id@) {
                        let w = first_index(ss, service_id@);
                        assert(is_first_index(ss, service_id@, w));
                    }
                }
                return None;
            }
            i = i + 1;
        }
        proof {
            if has_name(pipeline_names(ps), pipeline_id@) {
                let w = first_index(pipeline_names(ps), pipeline_id@);
                assert(is_first_index(pipeline_names(ps), pipeline_id@, w));
            }
        }
        None
    }
}

} // verus!
