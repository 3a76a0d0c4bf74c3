//! The pending change of a tracked file, and the rule that classifies what a
//! scan observed against what the ledger last recorded.
use vstd::prelude::*;

verus! {

/// How a file differs from its last confirmed state.
#[derive(Clone, Copy, Debug, PartialEq, Eq, Structural)]
pub enum ChangeType {
    NoChange,
    Create,
    Update,
    Delete,
}

impl ChangeType {
    /// The number under which a change is stored and sent.
    pub open spec fn code_spec(self) -> int {
        match self {
            ChangeType::NoChange => 0,
            ChangeType::Create => 1,
            ChangeType::Update => 2,
            ChangeType::Delete => 3,
        }
    }

    /// The change that a stored number stands for; every number that names no
    /// change reads as `NoChange`.
    pub open spec fn from_code_spec(code: int) -> ChangeType {
        if code == 1 {
            ChangeType::Create
        } else if code == 2 {
            ChangeType::Update
        } else if code == 3 {
            ChangeType::Delete
        } else {
            ChangeType::NoChange
        }
    }

    pub fn code(self) -> (r: i32)
        ensures
            r == self.code_spec(),
    {
        match self {
            ChangeType::NoChange => 0,
            ChangeType::Create => 1,
            ChangeType::Update => 2,
            ChangeType::Delete => 3,
        }
    }

    pub fn from_code(code: i32) -> (r: ChangeType)
        ensures
            r == ChangeType::from_code_spec(code as int),
    {
        match code {
            1 => ChangeType::Create,
            2 => ChangeType::Update,
            3 => ChangeType::Delete,
            _ => ChangeType::NoChange,
        }
    }

    /// Reading back the number of a change gives that change.
    pub proof fn lemma_code_round_trip(self)
        ensures
            ChangeType::from_code_spec(self.code_spec()) == self,
    {
    }
}

/// What the ledger knows of a file before a scan looks at it.
pub struct PriorState {
    pub base_hash: String,
    pub in_fs: bool,
    pub change: ChangeType,
}

pub struct PriorStateView {
    pub base_hash: Seq<char>,
    pub in_fs: bool,
    pub change: ChangeType,
}

impl View for PriorState {
    type V = PriorStateView;

    open spec fn view(&self) -> PriorStateView {
        PriorStateView { base_hash: self.base_hash@, in_fs: self.in_fs, change: self.change }
    }
}

/// The change that a scan finds.  `prior` is the ledger's record, if there is
/// one; `observed` is the content hash of the file, if it is on disk.
///
/// A file on disk is a `Create` without a record, `NoChange` when its hash is
/// the base hash, an `Update` otherwise.  A file that is gone is a `Delete`
/// when the record had it on disk; when the record did not, nothing new
/// happened and the pending change stays.  A file that is neither recorded
/// nor on disk has no change.
pub open spec fn classify_spec(prior: Option<PriorStateView>, observed: Option<Seq<char>>)
    -> ChangeType {
    match (prior, observed) {
        (None, None) => ChangeType::NoChange,
        (None, Some(_)) => ChangeType::Create,
        (Some(p), None) => if p.in_fs {
            ChangeType::Delete
        } else {
            p.change
        },
        (Some(p), Some(h)) => if h == p.base_hash {
            ChangeType::NoChange
        } else {
            ChangeType::Update
        },
    }
}

pub open spec fn prior_view(prior: Option<&PriorState>) -> Option<PriorStateView> {
    match prior {
        Some(p) => Some(p@),
        None => None,
    }
}

pub open spec fn text_view(text: Option<&String>) -> Option<Seq<char>> {
    match text {
        Some(t) => Some(t@),
        None => None,
    }
}

/// Classifies one file of a scan.
pub fn classify(prior: Option<&PriorState>, observed: Option<&String>) -> (r: ChangeType)
    ensures
        r == classify_spec(prior_view(prior), text_view(observed)),
{
    match prior {
        None => match observed {
            None => ChangeType::NoChange,
            Some(_) => ChangeType::Create,
        },
        Some(p) => match observed {
            None => if p.in_fs {
                ChangeType::Delete
            } else {
                p.change
            },
            Some(h) => if *h == p.base_hash {
                ChangeType::NoChange
            } else {
                ChangeType::Update
            },
        },
    }
}

} // verus!
