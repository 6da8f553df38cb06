//! What a run does: the decisions of the program, and those of the worker that answers
//! requests.
//!
//! A request is a line of flags and values with tabs between them. It asks for a model to be
//! loaded and rows to be scored, or for a model to be fitted. The worker goes through the
//! steps of a request one by one: each step is an [`Action`] that is carried out elsewhere,
//! and how it went is the [`Event`] that decides on the next one.

use vstd::prelude::*;
use vstd::string::StringExecFns;

use crate::config::Config;
use crate::config::Device;
use crate::text::decimal;
use crate::text::decimal_text;
use crate::text::pieces;
use crate::text::same_text;
use crate::text::split_on;
use crate::text::trim_end;
use crate::text::trimmed;

verus! {

/// What the program is asked to do.
#[derive(Clone, Copy, PartialEq, Eq, Debug, Structural)]
pub enum Mode {
    /// To answer requests.
    Worker,
    /// To use a device, which it cannot.
    NoDevice,
    /// To do what only a device can do, which it cannot use.
    DeviceOnly,
    /// To score the test rows with a model that it loads.
    Score,
    /// To fit a model, and to score the test rows with it.
    Fit,
}

/// Where a model is fitted or used. A model that is loaded is used on the host where the
/// program cannot use a device.
pub open spec fn place_of_run(cfg: Config, can_use_device: bool) -> Device {
    if !can_use_device && cfg.load_model@.len() > 0 {
        Device::Cpu
    } else {
        cfg.device
    }
}

/// What the program is asked to do.
pub open spec fn mode_of(cfg: Config, can_use_device: bool) -> Mode {
    let load = cfg.load_model@.len() > 0;
    let on_device = place_of_run(cfg, can_use_device) == Device::Gpu;
    if cfg.serve {
        Mode::Worker
    } else if !can_use_device && on_device && !load {
        Mode::NoDevice
    } else if !can_use_device && ((cfg.latency_bench && on_device) || (cfg.throughput_bench
        && on_device) || cfg.pgbm) {
        Mode::DeviceOnly
    } else if load {
        Mode::Score
    } else {
        Mode::Fit
    }
}

/// Where a model is fitted or used.
pub fn run_place(cfg: &Config, can_use_device: bool) -> (d: Device)
    ensures
        d == place_of_run(*cfg, can_use_device),
{
    if !can_use_device && !cfg.load_model.as_str().is_empty() {
        Device::Cpu
    } else {
        cfg.device
    }
}

/// What the program is asked to do.
pub fn run_mode(cfg: &Config, can_use_device: bool) -> (m: Mode)
    ensures
        m == mode_of(*cfg, can_use_device),
{
    let load = !cfg.load_model.as_str().is_empty();
    let on_device = run_place(cfg, can_use_device) == Device::Gpu;
    if cfg.serve {
        Mode::Worker
    } else if !can_use_device && on_device && !load {
        Mode::NoDevice
    } else if !can_use_device && ((cfg.latency_bench && on_device) || (cfg.throughput_bench
        && on_device) || cfg.pgbm) {
        Mode::DeviceOnly
    } else if load {
        Mode::Score
    } else {
        Mode::Fit
    }
}

/// A program that cannot use a device fits and scores on the host alone.
pub proof fn lemma_host_only(cfg: Config)
    requires
        mode_of(cfg, false) == Mode::Fit || mode_of(cfg, false) == Mode::Score,
    ensures
        place_of_run(cfg, false) == Device::Cpu,
{
}

/// Tells whether the arguments ask for a trial of the memory that a block of threads shares.
pub fn wants_trial(args: &[String]) -> (r: bool)
    ensures
        r == exists|i: int| 0 <= i < args@.len() && (#[trigger] args@[i])@ == "--smem-test"@,
{
    let mut i: usize = 0;
    while i < args.len()
        invariant
            i <= args@.len(),
            forall|k: int| 0 <= k < i ==> (#[trigger] args@[k])@ != "--smem-test"@,
        decreases args@.len() - i,
    {
        if same_text(args[i].as_str(), "--smem-test") {
            assert(args@[i as int]@ == "--smem-test"@);
            return true;
        }
        i = i + 1;
    }
    false
}

/// What a line asks of the worker.
pub enum Line {
    /// Nothing.
    Skip,
    /// To stop.
    Quit,
    /// To handle a request with the given flags and values.
    Request(Vec<String>),
}

/// Reads a line: white space at its end does not count, and neither does an empty line.
pub fn read_line(line: &str) -> (r: Line)
    ensures
        ({
            let text = trimmed(line@);
            match r {
                Line::Skip => text.len() == 0,
                Line::Quit => text.len() > 0 && text == "QUIT"@,
                Line::Request(tokens) => {
                    &&& text.len() > 0
                    &&& text != "QUIT"@
                    &&& crate::config::texts(tokens@) == pieces(text, '\t', text.len())
                },
            }
        }),
{
    let text: &str = trim_end(line);
    if text.is_empty() {
        return Line::Skip;
    }
    if same_text(text, "QUIT") {
        return Line::Quit;
    }
    let tokens = split_on(text, '\t');
    assert(crate::config::texts(tokens@) =~= pieces(text@, '\t', text@.len()));
    Line::Request(tokens)
}

/// What ends a reply.
pub open spec fn framed(reply: Seq<char>) -> Seq<char> {
    reply + "\n__END__\n"@
}

/// A reply as it is sent: with the line that ends it.
pub fn frame(reply: &str) -> (text: String)
    ensures
        text@ == framed(reply@),
{
    reply.to_owned().concat("\n__END__\n")
}

/// A step of a request.
pub enum Action {
    /// Load the dataset.
    LoadData,
    /// Load the model and score the test rows with it.
    LoadModel,
    /// Write the scores out.
    Dump,
    /// Make the device ready.
    OpenDevice,
    /// Fit a model on the host.
    FitHost,
    /// Fit a model on the device, which is ready.
    FitDevice,
    /// Write the model out.
    Save,
    /// Send a reply; the request is done.
    Reply(String),
}

/// How a step of a request went.
pub enum Event {
    /// The request has come in.
    Received,
    /// The dataset is loaded.
    DataLoaded,
    /// The model is loaded and has scored the given number of rows.
    Scored(usize),
    /// The model could not be loaded, for the given reason.
    LoadFailed(String),
    /// The scores of the given number of rows are written.
    Dumped(usize),
    /// The scores could not be written.
    DumpFailed(String),
    /// The device is ready.
    DeviceReady,
    /// The device could not be made ready.
    DeviceFailed(String),
    /// The model has been fitted, in the time that the text says.
    Fitted(String),
    /// The model could not be fitted.
    FitFailed(String),
    /// The model is written, and was fitted in the time that the text says.
    Saved(String),
    /// The model could not be written.
    SaveFailed(String),
}

/// A step of a request as plain values.
pub enum Step {
    LoadData,
    LoadModel,
    Dump,
    OpenDevice,
    FitHost,
    FitDevice,
    Save,
    Reply(Seq<char>),
}

impl Action {
    pub open spec fn step(self) -> Step {
        match self {
            Action::LoadData => Step::LoadData,
            Action::LoadModel => Step::LoadModel,
            Action::Dump => Step::Dump,
            Action::OpenDevice => Step::OpenDevice,
            Action::FitHost => Step::FitHost,
            Action::FitDevice => Step::FitDevice,
            Action::Save => Step::Save,
            Action::Reply(text) => Step::Reply(text@),
        }
    }
}

/// What the steps of a request depend on.
pub struct Request {
    /// A model is to be loaded, not fitted.
    pub load: bool,
    /// The scores are to be written out.
    pub dump: bool,
    /// The model is to be written out.
    pub save: bool,
    /// Where the model is to be fitted.
    pub device: Device,
    /// The program can use a device.
    pub can_use_device: bool,
    /// The device is ready.
    pub device_ready: bool,
}

/// The reply to a request that failed at a step.
pub open spec fn error_reply(step: Seq<char>, reason: Seq<char>) -> Seq<char> {
    "ERROR "@ + step + " "@ + reason
}

/// The reply where there is no device to fit on.
pub open spec fn no_device_reply() -> Seq<char> {
    "ERROR this binary was built without the 'gpu' feature; use --device cpu"@
}

impl Request {
    /// The step after an event.
    pub open spec fn next(self, event: Event) -> Step {
        match event {
            Event::Received => if !self.load && self.device == Device::Gpu && !self.can_use_device {
                Step::Reply(no_device_reply())
            } else {
                Step::LoadData
            },
            Event::DataLoaded => if self.load {
                Step::LoadModel
            } else if self.device == Device::Cpu {
                Step::FitHost
            } else if self.device_ready {
                Step::FitDevice
            } else {
                Step::OpenDevice
            },
            Event::Scored(n) => if self.dump {
                Step::Dump
            } else {
                Step::Reply("OK n="@ + decimal(n as nat))
            },
            Event::LoadFailed(reason) => Step::Reply(error_reply("load"@, reason@)),
            Event::Dumped(n) => Step::Reply("OK n="@ + decimal(n as nat)),
            Event::DumpFailed(reason) => Step::Reply(error_reply("dump"@, reason@)),
            Event::DeviceReady => Step::FitDevice,
            Event::DeviceFailed(reason) => Step::Reply(error_reply("ctx"@, reason@)),
            Event::Fitted(seconds) => if self.save {
                Step::Save
            } else {
                Step::Reply("OK train_s="@ + seconds@)
            },
            Event::FitFailed(reason) => Step::Reply(error_reply("fit"@, reason@)),
            Event::Saved(seconds) => Step::Reply("OK train_s="@ + seconds@),
            Event::SaveFailed(reason) => Step::Reply(error_reply("save"@, reason@)),
        }
    }

    /// The request that a configuration asks for. Where a model is loaded, nothing is fitted
    /// and no device is used.
    pub fn new(cfg: &Config, can_use_device: bool, device_ready: bool) -> (r: Request)
        ensures
            r.load == (cfg.load_model@.len() > 0),
            r.dump == (cfg.dump_pred@.len() > 0),
            r.save == (cfg.save_model@.len() > 0),
            r.device == cfg.device,
            r.can_use_device == can_use_device,
            r.device_ready == device_ready,
    {
        Request {
            load: !cfg.load_model.as_str().is_empty(),
            dump: !cfg.dump_pred.as_str().is_empty(),
            save: !cfg.save_model.as_str().is_empty(),
            device: cfg.device,
            can_use_device,
            device_ready,
        }
    }

    /// The step after an event.
    pub fn advance(&self, event: &Event) -> (action: Action)
        ensures
            action.step() == self.next(*event),
    {
        match event {
            Event::Received => if !self.load && self.device == Device::Gpu && !self.can_use_device {
                Action::Reply(
                    "ERROR this binary was built without the 'gpu' feature; use --device cpu".to_owned(),
                )
            } else {
                Action::LoadData
            },
            Event::DataLoaded => if self.load {
                Action::LoadModel
            } else if self.device == Device::Cpu {
                Action::FitHost
            } else if self.device_ready {
                Action::FitDevice
            } else {
                Action::OpenDevice
            },
            Event::Scored(n) => if self.dump {
                Action::Dump
            } else {
                Action::Reply(scored_reply(*n))
            },
            Event::LoadFailed(reason) => Action::Reply(failed("load", reason.as_str())),
            Event::Dumped(n) => Action::Reply(scored_reply(*n)),
            Event::DumpFailed(reason) => Action::Reply(failed("dump", reason.as_str())),
            Event::DeviceReady => Action::FitDevice,
            Event::DeviceFailed(reason) => Action::Reply(failed("ctx", reason.as_str())),
            Event::Fitted(seconds) => if self.save {
                Action::Save
            } else {
                Action::Reply("OK train_s=".to_owned().concat(seconds.as_str()))
            },
            Event::FitFailed(reason) => Action::Reply(failed("fit", reason.as_str())),
            Event::Saved(seconds) => Action::Reply(
                "OK train_s=".to_owned().concat(seconds.as_str()),
            ),
            Event::SaveFailed(reason) => Action::Reply(failed("save", reason.as_str())),
        }
    }
}

/// The reply to a request whose rows have been scored.
fn scored_reply(n: usize) -> (text: String)
    ensures
        text@ == "OK n="@ + decimal(n as nat),
{
    let digits = decimal_text(n as u64);
    "OK n=".to_owned().concat(digits.as_str())
}

/// The reply to a request that failed at a step.
fn failed(step: &str, reason: &str) -> (text: String)
    ensures
        text@ == error_reply(step@, reason@),
{
    "ERROR ".to_owned().concat(step).concat(" ").concat(reason)
}

/// The event is that a step has succeeded as the request wants it.
pub open spec fn answers(r: Request, step: Step, event: Event) -> bool {
    match step {
        Step::LoadData => event is DataLoaded,
        Step::LoadModel => event is Scored,
        Step::Dump => event is Dumped,
        Step::OpenDevice => event is DeviceReady,
        Step::FitHost | Step::FitDevice => event is Fitted,
        Step::Save => event is Saved,
        Step::Reply(_) => false,
    }
}

/// The events are those of a request whose steps all succeed.
pub open spec fn succeeds(r: Request, events: Seq<Event>) -> bool {
    &&& events.len() > 0
    &&& events[0] is Received
    &&& forall|i: int|
        0 <= i < events.len() - 1 ==> answers(r, r.next(#[trigger] events[i]), events[i + 1])
}

/// A request whose steps all succeed is answered after a bounded number of steps: a model to
/// be loaded is loaded and used before the reply, a model to be fitted is fitted, and what is
/// to be written out is written out.
pub proof fn lemma_request_steps(r: Request, events: Seq<Event>)
    requires
        succeeds(r, events),
        r.next(events.last()) is Reply,
        r.load || r.device == Device::Cpu || r.can_use_device,
    ensures
        events.len() <= 5,
        r.load ==> exists|i: int| 0 <= i < events.len() && events[i] is Scored,
        r.load && r.dump ==> exists|i: int| 0 <= i < events.len() && events[i] is Dumped,
        !r.load ==> exists|i: int| 0 <= i < events.len() && events[i] is Fitted,
        !r.load && r.save ==> exists|i: int| 0 <= i < events.len() && events[i] is Saved,
{
    let n = events.len();
    assert(r.next(events[0]) is LoadData);
    assert(n >= 2);
    assert(answers(r, r.next(events[0]), events[1]));
    assert(events[1] is DataLoaded);
    assert(n >= 3);
    assert(answers(r, r.next(events[1]), events[2]));
    if n >= 4 {
        assert(answers(r, r.next(events[2]), events[3]));
    }
    if n >= 5 {
        assert(answers(r, r.next(events[3]), events[4]));
    }
    if n >= 6 {
        assert(answers(r, r.next(events[4]), events[5]));
    }
}

/// A step that fails is answered at once, with its name and the reason.
pub proof fn lemma_failure_answered(r: Request, reason: String)
    ensures
        r.next(Event::LoadFailed(reason)) == Step::Reply(error_reply("load"@, reason@)),
        r.next(Event::DumpFailed(reason)) == Step::Reply(error_reply("dump"@, reason@)),
        r.next(Event::DeviceFailed(reason)) == Step::Reply(error_reply("ctx"@, reason@)),
        r.next(Event::FitFailed(reason)) == Step::Reply(error_reply("fit"@, reason@)),
        r.next(Event::SaveFailed(reason)) == Step::Reply(error_reply("save"@, reason@)),
{
}

} // verus!
