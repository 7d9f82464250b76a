use vstd::prelude::*;
use std::sync::mpsc::Sender;

verus! {

#[verifier::external_type_specification]
#[verifier::external_body]
#[verifier::reject_recursive_types(T)]
pub struct ExSender<T>(std::sync::mpsc::Sender<T>);

/// What a runner thread reports when it ends, whether it ended by panicking,
/// under the thread's label, and the channel the report goes to.
pub struct Unwinder {
    result_tx: Sender<(bool, String)>,
    thread_label: String,
}

impl Unwinder {
    /// The channel that reports go to.
    pub closed spec fn channel(&self) -> Sender<(bool, String)> {
        self.result_tx
    }

    /// The label that reports carry.
    pub closed spec fn label(&self) -> Seq<char> {
        self.thread_label@
    }

    /// An unwinder that reports to `result_tx` under `thread_label`.
    pub fn new(result_tx: Sender<(bool, String)>, thread_label: String) -> (u: Self)
        ensures
            u.channel() == result_tx,
            u.label() == thread_label@,
    {
        Self { result_tx, thread_label }
    }

    /// The report that the thread is `panicking` (or not), under the label.
    pub fn message(&self, panicking: bool) -> (m: (bool, String))
        ensures
            m.0 == panicking,
            m.1@ == self.label(),
    {
        (panicking, self.thread_label.clone())
    }

    /// The channel that reports go to; sending on it is left to the caller.
    pub fn sender(&self) -> (tx: &Sender<(bool, String)>)
        ensures
            *tx == self.channel(),
    {
        &self.result_tx
    }
}

} // verus!
