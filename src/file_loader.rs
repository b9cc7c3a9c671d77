//! Hands loaded files, or the reason they failed to load, from whoever reads
//! them to whoever shows them.

use crate::sections::{error_message, ExecutableFile, ParseError};
use std::sync::mpsc::{Receiver, Sender};
use vstd::prelude::*;

verus! {

/// What a load hands over: the file, or why it could not be parsed.
pub type Loaded = Result<ExecutableFile, ParseError>;

#[verifier::external_type_specification]
#[verifier::external_body]
#[verifier::reject_recursive_types(T)]
pub struct ExReceiver<T>(Receiver<T>);

#[verifier::external_type_specification]
#[verifier::external_body]
#[verifier::reject_recursive_types(T)]
pub struct ExSender<T>(Sender<T>);

/// Relies on `std::sync::mpsc::channel`: a new channel's two ends.
#[verifier::external_body]
fn new_channel() -> (Sender<Loaded>, Receiver<Loaded>) {
    std::sync::mpsc::channel()
}

/// Relies on `Receiver::try_recv`: a value that was sent and not yet taken,
/// if there is one; what comes back depends on the other threads.
#[verifier::external_body]
fn try_take(rx: &Receiver<Loaded>) -> Option<Loaded> {
    rx.try_recv().ok()
}

/// The receiving end of the loads, and the last load error not yet dismissed.
pub struct FileLoader {
    /// Where the loads arrive.
    pub rx: Receiver<Loaded>,
    /// Where loaders send what they loaded.
    pub tx: Sender<Loaded>,
    /// The message of the last failed load, until it is dismissed.
    pub error: Option<String>,
}

impl Default for FileLoader {
    fn default() -> (r: Self)
        ensures
            r.error.is_none(),
    {
        let (tx, rx) = new_channel();
        FileLoader { rx, tx, error: None }
    }
}

impl FileLoader {
    /// Takes in one handed-over load: a loaded file is returned; a failure
    /// is kept as the error to show; nothing changes when nothing came.
    pub fn receive(&mut self, received: Option<Loaded>) -> (r: Option<ExecutableFile>)
        ensures
            match received {
                Some(Ok(file)) => r == Some(file) && final(self).error == old(self).error,
                Some(Err(e)) => r.is_none() && (final(self).error matches Some(m) && m@ == #[trigger] error_message(e)),
                None => r.is_none() && final(self).error == old(self).error,
            },
    {
        match received {
            Some(Ok(file)) => Some(file),
            Some(Err(err)) => {
                self.error = Some(err.message());
                None
            },
            None => None,
        }
    }

    /// Takes the next load that was handed over, if any, as [`FileLoader::receive`] says.
    pub fn recive_file_from_user(&mut self) -> (r: Option<ExecutableFile>)
        ensures
            r.is_some() ==> final(self).error == old(self).error,
            r.is_none() ==> final(self).error == old(self).error || exists|e: ParseError|
                (final(self).error matches Some(m) && m@ == #[trigger] error_message(e)),
    {
        let received = try_take(&self.rx);
        self.receive(received)
    }
}

} // verus!
