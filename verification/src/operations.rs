use vstd::prelude::*;

verus! {

/// The state of a long-running operation after one step.
#[derive(Clone, Copy, Debug, PartialEq, Eq, Structural)]
pub enum LoopOp {
    Continue,
    Break,
    ForceBreakBeforeCompleted,
}

/// How a long-running operation ended within one transaction.
#[derive(Clone, Copy, Debug, PartialEq, Eq, Structural)]
pub enum OperationCompletionStatus {
    Completed,
    InterruptedBeforeOutOfGas,
    ForcedInterruption,
}

/// The bytes of an ASCII text.
pub open spec fn ascii_bytes(text: Seq<char>) -> Seq<u8> {
    Seq::new(text.len(), |i: int| text[i] as u8)
}

impl OperationCompletionStatus {
    /// The word by which the status is reported.
    pub open spec fn output_text(&self) -> Seq<char> {
        match self {
            OperationCompletionStatus::Completed => "completed"@,
            OperationCompletionStatus::InterruptedBeforeOutOfGas => "interrupted"@,
            OperationCompletionStatus::ForcedInterruption => "forcedInterruption"@,
        }
    }

    pub fn output_bytes(&self) -> (r: &'static [u8])
        ensures
            r@ == ascii_bytes(self.output_text()),
    {
        broadcast use vstd::string::is_ascii_spec_bytes;
        let text: &'static str = match self {
            OperationCompletionStatus::Completed => "completed",
            OperationCompletionStatus::InterruptedBeforeOutOfGas => "interrupted",
            OperationCompletionStatus::ForcedInterruption => "forcedInterruption",
        };
        proof {
            reveal_strlit("completed");
            reveal_strlit("interrupted");
            reveal_strlit("forcedInterruption");
            assert(vstd::string::is_ascii(text));
        }
        text.as_bytes()
    }
}

/// Below this much gas left, a long-running operation stops so that it can
/// still save its progress.
pub const MIN_GAS_TO_SAVE_PROGRESS: u64 = 15_000_000;

impl OperationCompletionStatus {
    pub fn is_completed(&self) -> (r: bool)
        ensures
            r == (*self is Completed),
    {
        match self {
            OperationCompletionStatus::Completed => true,
            _ => false,
        }
    }
}

/// A long-running operation runs step by step while the gas lasts: the
/// host runs a first step, measures its cost, and before each further step
/// asks whether to go on.
pub trait OngoingOperationModule {
    /// Whether a step that costs `operation_cost` can run with `gas_left`
    /// and still leave enough gas to save the progress.
    fn can_continue_operation(&self, gas_left: u64, operation_cost: u64) -> (r: bool)
        ensures
            r == (gas_left > MIN_GAS_TO_SAVE_PROGRESS + operation_cost),
    {
        (gas_left as u128) > (MIN_GAS_TO_SAVE_PROGRESS as u128) + (operation_cost as u128)
    }

    /// After a step that asked for `loop_op`, how the operation ends, or
    /// `None` where the next step is to run.
    fn next_operation_status(&self, loop_op: LoopOp, gas_left: u64, gas_per_iteration: u64) -> (r: Option<
        OperationCompletionStatus,
    >)
        ensures
            r == (match loop_op {
                LoopOp::Break => Some(OperationCompletionStatus::Completed),
                LoopOp::ForceBreakBeforeCompleted => Some(OperationCompletionStatus::ForcedInterruption),
                LoopOp::Continue => if gas_left > MIN_GAS_TO_SAVE_PROGRESS + gas_per_iteration {
                    None
                } else {
                    Some(OperationCompletionStatus::InterruptedBeforeOutOfGas)
                },
            }),
    {
        match loop_op {
            LoopOp::Break => Some(OperationCompletionStatus::Completed),
            LoopOp::ForceBreakBeforeCompleted => Some(OperationCompletionStatus::ForcedInterruption),
            LoopOp::Continue => {
                if !self.can_continue_operation(gas_left, gas_per_iteration) {
                    Some(OperationCompletionStatus::InterruptedBeforeOutOfGas)
                } else {
                    None
                }
            },
        }
    }
}

} // verus!
