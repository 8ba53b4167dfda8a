//! The batch-operation manifest's shape and its validity rules.  Loading
//! and decoding the manifest file is the caller's work; the rules on what a
//! loaded manifest must hold are checked here.

use vstd::prelude::*;

use crate::error::{PatchError, PatchErrorModel};

verus! {

/// The operation kinds as a manifest names them.
#[derive(Clone, Copy, Debug)]
pub enum OperationType {
    Append,
    Replace,
    Delete,
}

/// One manifest entry: a file, a heading path, a block index, and the edit.
#[derive(Debug)]
pub struct OperationConfig {
    pub file: Vec<u8>,
    pub heading: Vec<Vec<u8>>,
    pub index: usize,
    pub operation: OperationType,
    pub content: Option<Vec<u8>>,
    pub fingerprint: Option<Vec<u8>>,
}

/// A whole manifest.
#[derive(Debug)]
pub struct ConfigFile {
    pub operations: Vec<OperationConfig>,
}

/// A valid entry names at least one heading and carries content whenever
/// the operation needs it.
pub open spec fn op_config_valid(op: OperationConfig) -> bool {
    op.heading.len() > 0 && (match op.operation {
        OperationType::Append | OperationType::Replace => op.content is Some,
        OperationType::Delete => true,
    })
}

/// Check every manifest entry: an empty heading path or missing content
/// fails with the offending entry's index and the reason.
pub fn validate_operations(ops: &Vec<OperationConfig>) -> (r: Result<(), (usize, PatchError)>)
    ensures
        ({
            match r {
                Result::Ok(_) => forall|k: int|
                    0 <= k < ops@.len() ==> op_config_valid(#[trigger] ops@[k]),
                Result::Err(p) => {
                    &&& 0 <= p.0 < ops@.len()
                    &&& !op_config_valid(ops@[p.0 as int])
                    &&& forall|k: int| 0 <= k < p.0 ==> op_config_valid(#[trigger] ops@[k])
                    &&& (p.1@ == PatchErrorModel::EmptyHeadingPath || p.1@
                        == PatchErrorModel::MissingContent)
                    &&& (p.1@ == PatchErrorModel::EmptyHeadingPath) == (ops@[p.0 as int].heading@.len()
                        == 0)
                },
            }
        }),
{
    let n = ops.len();
    let mut i: usize = 0;
    while i < n
        invariant
            n == ops@.len(),
            0 <= i <= n,
            forall|k: int| 0 <= k < i ==> op_config_valid(#[trigger] ops@[k]),
        decreases n - i,
    {
        let op = vstd::std_specs::vec::vec_index(ops, i);
        if op.heading.len() == 0 {
            return Result::Err((i, PatchError::EmptyHeadingPath));
        }
        let needs_content = match op.operation {
            OperationType::Append => true,
            OperationType::Replace => true,
            OperationType::Delete => false,
        };
        if needs_content && op.content.is_none() {
            return Result::Err((i, PatchError::MissingContent));
        }
        i += 1;
    }
    Result::Ok(())
}

} // verus!
