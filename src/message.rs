use vstd::prelude::*;

verus! {

/// A command as the listener issues it: who asked, whether it runs elevated,
/// the program and its arguments.
#[derive(Debug, Clone, PartialEq, Eq)]
pub struct Payload {
    pub sudo: bool,
    pub user: String,
    pub command: String,
    pub args: Vec<String>,
}

/// What the dialer sends back once a command has run (or failed to start).
#[derive(Debug, Clone, PartialEq, Eq)]
pub struct Report {
    pub payload: Payload,
    pub status: String,
    pub stdout: String,
    pub stderr: String,
}

/// The mathematical value of a [`Payload`].
pub ghost struct PayloadModel {
    pub sudo: bool,
    pub user: Seq<char>,
    pub command: Seq<char>,
    pub args: Seq<Seq<char>>,
}

/// The mathematical value of a [`Report`].
pub ghost struct ReportModel {
    pub payload: PayloadModel,
    pub status: Seq<char>,
    pub stdout: Seq<char>,
    pub stderr: Seq<char>,
}

pub open spec fn texts_of(v: Seq<String>) -> Seq<Seq<char>> {
    v.map_values(|a: String| a@)
}

impl View for Payload {
    type V = PayloadModel;

    open spec fn view(&self) -> PayloadModel {
        PayloadModel {
            sudo: self.sudo,
            user: self.user@,
            command: self.command@,
            args: texts_of(self.args@),
        }
    }
}

impl View for Report {
    type V = ReportModel;

    open spec fn view(&self) -> ReportModel {
        ReportModel {
            payload: self.payload@,
            status: self.status@,
            stdout: self.stdout@,
            stderr: self.stderr@,
        }
    }
}

} // verus!
