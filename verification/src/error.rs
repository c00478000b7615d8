//! Error type of the crate.
use vstd::prelude::*;

verus! {

/// All failures that the crate reports. What the recogniser says of a failure is kept as text.
#[derive(Debug, PartialEq)]
#[non_exhaustive]
pub enum Error {
    /// Loading the Whisper model file failed.
    ModelLoad(String),
    /// Loading the Silero VAD model file failed.
    VadModelLoad(String),
    /// Allocating a Whisper decoder state failed.
    StateInit(String),
    /// Running Whisper inference on the current audio buffer failed.
    Inference(String),
    /// Running the VAD on the current audio chunk failed.
    Vad(String),
    /// The description of the audio input is not usable.
    InvalidAudio(String),
}

/// What an [`Error`] says.
pub enum ErrorView {
    ModelLoad(Seq<char>),
    VadModelLoad(Seq<char>),
    StateInit(Seq<char>),
    Inference(Seq<char>),
    Vad(Seq<char>),
    InvalidAudio(Seq<char>),
}

impl View for Error {
    type V = ErrorView;

    open spec fn view(&self) -> ErrorView {
        match *self {
            Error::ModelLoad(m) => ErrorView::ModelLoad(m@),
            Error::VadModelLoad(m) => ErrorView::VadModelLoad(m@),
            Error::StateInit(m) => ErrorView::StateInit(m@),
            Error::Inference(m) => ErrorView::Inference(m@),
            Error::Vad(m) => ErrorView::Vad(m@),
            Error::InvalidAudio(m) => ErrorView::InvalidAudio(m@),
        }
    }
}

impl ErrorView {
    /// The text that a user is shown.
    pub open spec fn message(self) -> Seq<char> {
        match self {
            ErrorView::ModelLoad(m) => "failed to load whisper model: "@ + m,
            ErrorView::VadModelLoad(m) => "failed to load VAD model: "@ + m,
            ErrorView::StateInit(m) => "failed to create whisper state: "@ + m,
            ErrorView::Inference(m) => "whisper inference failed: "@ + m,
            ErrorView::Vad(m) => "VAD failed: "@ + m,
            ErrorView::InvalidAudio(m) => "invalid audio input: "@ + m,
        }
    }
}

impl Error {
    /// The text that a user is shown.
    pub fn message(&self) -> (r: String)
        ensures
            r@ == self@.message(),
    {
        match self {
            Error::ModelLoad(m) => "failed to load whisper model: ".to_owned().concat(m.as_str()),
            Error::VadModelLoad(m) => "failed to load VAD model: ".to_owned().concat(m.as_str()),
            Error::StateInit(m) => "failed to create whisper state: ".to_owned().concat(m.as_str()),
            Error::Inference(m) => "whisper inference failed: ".to_owned().concat(m.as_str()),
            Error::Vad(m) => "VAD failed: ".to_owned().concat(m.as_str()),
            Error::InvalidAudio(m) => "invalid audio input: ".to_owned().concat(m.as_str()),
        }
    }
}

} // verus!
