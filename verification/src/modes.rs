//! What a program does for its settings, and what it replies.

use vstd::prelude::*;

use crate::config::Config;
use crate::config::Device;
use crate::serve::framed;
use crate::serve::mode_of;
use crate::serve::no_device_reply;
use crate::serve::place_of_run;
use crate::serve::Event;
use crate::serve::Mode;
use crate::serve::Request;
use crate::serve::Step;
use crate::text::count_of;
use crate::text::decimal;
use crate::text::lemma_decimal_reads_back;

verus! {

/// A program is a worker where it is asked to serve, and nothing else is. Otherwise a model that is
/// named is used and none is fitted, and one is fitted where none is named; a program that can use
/// a device refuses nothing.
pub proof fn lemma_modes(cfg: Config, can_use_device: bool)
    ensures
        ({
            let mode = mode_of(cfg, can_use_device);
            &&& mode == Mode::Worker <==> cfg.serve
            &&& mode == Mode::Score ==> cfg.load_model@.len() > 0
            &&& mode == Mode::Fit ==> cfg.load_model@.len() == 0
            &&& can_use_device ==> mode != Mode::NoDevice && mode != Mode::DeviceOnly
            &&& can_use_device ==> place_of_run(cfg, can_use_device) == cfg.device
            &&& mode == Mode::NoDevice ==> cfg.device == Device::Gpu && cfg.load_model@.len() == 0
            &&& mode == Mode::DeviceOnly ==> cfg.latency_bench || cfg.throughput_bench || cfg.pgbm
            &&& cfg.device == Device::Cpu && !cfg.pgbm ==> mode != Mode::NoDevice && mode
                != Mode::DeviceOnly
            &&& !can_use_device && cfg.pgbm && !cfg.serve ==> mode == Mode::NoDevice || mode
                == Mode::DeviceOnly
            &&& !can_use_device && cfg.device == Device::Gpu && cfg.load_model@.len() == 0
                && !cfg.serve ==> mode == Mode::NoDevice
        }),
{
}

/// A model is fitted on the host only where a request asks for the host, and on a device only where
/// it asks for one; nothing is fitted where a model is to be loaded, and a device that is ready is
/// not made ready again.
pub proof fn lemma_where_fitted(r: Request, event: Event)
    ensures
        r.next(event) is FitHost ==> !r.load && r.device == Device::Cpu,
        event is DataLoaded && r.next(event) is FitDevice ==> !r.load && r.device == Device::Gpu
            && r.device_ready,
        r.next(event) is FitDevice ==> event is DataLoaded || event is DeviceReady,
        r.next(event) is OpenDevice ==> !r.load && r.device == Device::Gpu && !r.device_ready,
        r.next(event) is LoadModel ==> r.load,
        r.next(event) is Dump ==> r.dump && event is Scored,
        r.next(event) is Save ==> r.save && event is Fitted,
{
}

/// The request has failed.
pub open spec fn is_failure(event: Event) -> bool {
    event is LoadFailed || event is DumpFailed || event is DeviceFailed || event is FitFailed
        || event is SaveFailed
}

/// A reply begins with `OK` where the request has been met, and with `ERROR` where it has not.
pub proof fn lemma_reply_words(r: Request, event: Event)
    requires
        r.next(event) is Reply,
    ensures
        ({
            let reply = r.next(event)->Reply_0;
            let refused = is_failure(event) || event is Received;
            &&& refused ==> reply.len() >= 6 && reply.take(6) == "ERROR "@
            &&& !refused ==> reply.len() >= 3 && reply.take(3) == "OK "@
            &&& event is Received ==> !r.load && r.device == Device::Gpu && !r.can_use_device
        }),
{
    reveal_strlit("ERROR ");
    reveal_strlit("OK ");
    reveal_strlit("OK n=");
    reveal_strlit("OK train_s=");
    reveal_strlit("ERROR this binary was built without the 'gpu' feature; use --device cpu");
    let reply = r.next(event)->Reply_0;
    if is_failure(event) {
        assert(reply.take(6) =~= "ERROR "@);
    } else if event is Received {
        assert(reply == no_device_reply());
        assert(reply.take(6) =~= "ERROR "@);
    } else {
        assert(reply.take(3) =~= "OK "@);
    }
}

/// A reply to rows that have been scored ends with their number.
pub proof fn lemma_reply_counts(r: Request, n: usize)
    ensures
        ({
            let reply = r.next(Event::Dumped(n))->Reply_0;
            reply.len() >= 5 && count_of(reply.skip(5)) == Some(n as nat)
        }),
        !r.dump ==> r.next(Event::Scored(n)) == r.next(Event::Dumped(n)),
{
    reveal_strlit("OK n=");
    let reply = r.next(Event::Dumped(n))->Reply_0;
    assert(reply.skip(5) =~= decimal(n as nat));
    lemma_decimal_reads_back(n as nat);
}

/// A reply is sent as it stands, and after it a line of its own that says that it ends.
pub proof fn lemma_framed(reply: Seq<char>)
    ensures
        framed(reply).len() == reply.len() + 9,
        framed(reply).take(reply.len() as int) == reply,
        framed(reply)[reply.len() as int] == '\n',
        framed(reply).last() == '\n',
        framed(reply).subrange(reply.len() as int + 1, reply.len() as int + 8) == "__END__"@,
{
    reveal_strlit("\n__END__\n");
    reveal_strlit("__END__");
    assert(framed(reply).take(reply.len() as int) =~= reply);
    assert(framed(reply).subrange(reply.len() as int + 1, reply.len() as int + 8) =~= "__END__"@);
}

} // verus!
