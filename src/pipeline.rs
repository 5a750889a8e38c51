use vstd::prelude::*;

verus! {

/// Number of bits of a service mask: the most services a pipeline may declare.
pub const MAX_SERVICES: usize = 32;

/// Whether bit `i` of `mask` is set.
pub open spec fn has_bit(mask: u32, i: u32) -> bool {
    (mask >> i) & 1u32 == 1u32
}

/// `mask` has exactly the bits below `n` set.
pub open spec fn is_full_mask(mask: u32, n: nat) -> bool {
    forall|i: u32| i < 32 ==> (has_bit(mask, i) <==> (i as nat) < n)
}

/// `mask` has exactly the bits of the required services set.
pub open spec fn is_required_mask(mask: u32, services: Seq<Service>) -> bool {
    forall|i: u32|
        i < 32 ==> (has_bit(mask, i) <==> ((i as int) < services.len() && services[i as int].required))
}

pub proof fn lemma_empty_mask(j: u32)
    by (bit_vector)
    requires
        j < 32,
    ensures
        !has_bit(0u32, j),
{
}

pub proof fn lemma_set_bit(mask: u32, k: u32, j: u32)
    by (bit_vector)
    requires
        k < 32,
        j < 32,
    ensures
        has_bit(mask | (1u32 << k), j) == (has_bit(mask, j) || j == k),
{
}

/// Description of one pipeline: its services, in bit order, and its time budget.
#[derive(Clone, Debug)]
pub struct Pipeline {
    pub name: String,
    pub max_seconds_to_reach_end: i64,
    pub seconds_from_startup_to_ignore_event_evaluation: i64,
    pub services: Vec<Service>,
}

/// A service of a pipeline; its position in the pipeline's list is its bit.
#[derive(Clone, Debug)]
pub struct Service {
    pub name: String,
    pub children: Vec<String>,
    pub required: bool,
}

impl Pipeline {
    pub open spec fn wf(&self) -> bool {
        self.services@.len() <= MAX_SERVICES
    }

    /// The mask with one bit for every service of the pipeline.
    pub fn completed_services_mask(&self) -> (mask: u32)
        requires
            self.wf(),
        ensures
            is_full_mask(mask, self.services@.len()),
    {
        let num_of_services = self.services.len();
        let mut mask: u32 = 0;
        let mut i: usize = 0;
        proof {
            assert forall|j: u32| j < 32 implies (has_bit(mask, j) <==> (j as nat) < i) by {
                lemma_empty_mask(j);
            }
        }
        while i < num_of_services
            invariant
                num_of_services == self.services@.len(),
                num_of_services <= MAX_SERVICES,
                i <= num_of_services,
                is_full_mask(mask, i as nat),
            decreases num_of_services - i,
        {
            let old_mask = mask;
            mask = mask | (1u32 << (i as u32));
            proof {
                assert forall|j: u32| j < 32 implies (has_bit(mask, j) <==> (j as nat) < i + 1) by {
                    lemma_set_bit(old_mask, i as u32, j);
                }
            }
            i = i + 1;
        }
        mask
    }

    /// The mask with one bit for every service of the pipeline that is required.
    pub fn required_services_mask(&self) -> (mask: u32)
        requires
            self.wf(),
        ensures
            is_required_mask(mask, self.services@),
    {
        let mut mask: u32 = 0;
        let mut pos: usize = 0;
        proof {
            assert forall|j: u32| j < 32 implies !has_bit(mask, j) by {
                lemma_empty_mask(j);
            }
        }
        while pos < self.services.len()
            invariant
                self.services@.len() <= MAX_SERVICES,
                pos <= self.services@.len(),
                forall|j: u32|
                    j < 32 ==> (has_bit(mask, j) <==> ((j as int) < pos
                        && self.services@[j as int].required)),
            decreases self.services@.len() - pos,
        {
            let old_mask = mask;
            if self.services[pos].required {
                mask = mask | (1u32 << (pos as u32));
            }
            proof {
                assert forall|j: u32| j < 32 implies (has_bit(mask, j) <==> ((j as int) < pos + 1
                    && self.services@[j as int].required)) by {
                    if self.services@[pos as int].required {
                        lemma_set_bit(old_mask, pos as u32, j);
                    }
                }
            }
            pos = pos + 1;
        }
        mask
    }
}

} // verus!
