//! The course of a scan: how it begins, what it announces, how it ends. Between these steps the
//! packets are sent and the answers read.

use vstd::prelude::*;
use vstd::string::*;

use crate::live::{done_text, done_text_spec, Live, LiveView, Phase};
use crate::scan::{
    banners_spec, finish, finish_spec, mode_name, mode_text, start_banners, Finish, FinishView,
    RunOpts,
};
use crate::text::texts;

verus! {

/// The state of a scan after it has logged some lines.
pub open spec fn logged_all(v: LiveView, lines: Seq<Seq<char>>) -> LiveView
    decreases lines.len(),
{
    if lines.len() == 0 {
        v
    } else {
        logged_all(v, lines.drop_last()).logged(lines.last())
    }
}

/// What standard error gets for some lines.
pub open spec fn printed_all(v: LiveView, lines: Seq<Seq<char>>) -> Seq<char>
    decreases lines.len(),
{
    if lines.len() == 0 {
        Seq::empty()
    } else {
        printed_all(v, lines.drop_last()) + v.printed(lines.last())
    }
}

proof fn lemma_logged_all(v: LiveView, lines: Seq<Seq<char>>)
    ensures
        logged_all(v, lines) == (LiveView { logs: logged_all(v, lines).logs, ..v }),
        v.wf() ==> logged_all(v, lines).wf(),
    decreases lines.len(),
{
    if lines.len() > 0 {
        lemma_logged_all(v, lines.drop_last());
    }
}

/// Logs some lines; gives what standard error gets.
fn log_all(live: &mut Live, lines: &[String]) -> (printed: String)
    ensures
        final(live)@ == logged_all(old(live)@, texts(lines@)),
        printed@ == printed_all(old(live)@, texts(lines@)),
{
    let ghost v = live@;
    let ghost all = texts(lines@);
    let mut printed: String = String::new();
    let mut i: usize = 0;
    assert(printed@ =~= printed_all(v, all.take(0)));
    assert(live@ == logged_all(v, all.take(0)));
    while i < lines.len()
        invariant
            i <= lines@.len(),
            all == texts(lines@),
            live@ == logged_all(v, all.take(i as int)),
            printed@ == printed_all(v, all.take(i as int)),
        decreases lines@.len() - i,
    {
        proof {
            assert(all.take(i + 1).drop_last() =~= all.take(i as int));
            assert(all.take(i + 1).last() == lines@[i as int]@);
            lemma_logged_all(v, all.take(i as int));
        }
        let shown: String = live.banner(lines[i].as_str());
        printed.append(shown.as_str());
        i = i + 1;
    }
    assert(all.take(i as int) =~= all);
    printed
}

/// A scan begins. Tells whether to try raw sockets for it.
pub fn begin(opts: &RunOpts, live: &mut Live) -> (raw: bool)
    ensures
        final(live)@ == old(live)@.begun(opts.total_pkts, opts.space.total, opts.skip),
        final(live)@.wf(),
        raw == !opts.cfg.tcp,
{
    live.reset_for_run(opts.total_pkts, opts.space.total, opts.skip);
    !opts.cfg.tcp
}

/// A scan announces what it does, once it is known whether there are raw sockets (`syn`); `pps`
/// and `eta` are the rate and the time that it will take. Gives what standard error gets.
pub fn announce(opts: &RunOpts, live: &mut Live, syn: bool, pps: &str, eta: &str) -> (printed: String)
    ensures
        final(live)@ == logged_all(
            LiveView { mode: mode_name(syn), ..old(live)@ },
            banners_spec(*opts, syn, pps@, eta@),
        ),
        printed@ == printed_all(
            LiveView { mode: mode_name(syn), ..old(live)@ },
            banners_spec(*opts, syn, pps@, eta@),
        ),
        old(live)@.wf() ==> final(live)@.wf(),
{
    live.set_mode(mode_text(syn));
    let lines: Vec<String> = start_banners(opts, syn, pps, eta);
    proof {
        lemma_logged_all(live@, texts(lines@));
    }
    log_all(live, lines.as_slice())
}

/// The state of a scan that has sent its last packet.
pub open spec fn ended(opts: RunOpts, v: LiveView) -> LiveView {
    let halted = LiveView { running: false, ..v };
    match finish_spec(opts, v.cursor) {
        FinishView::NoState => halted,
        FinishView::Complete(line) => halted.logged(line),
        FinishView::Saved(_, line) => halted.logged(line),
    }
}

/// A scan has sent its last packet. Gives what becomes of the state file, and what standard error
/// gets.
pub fn end(opts: &RunOpts, live: &mut Live) -> (r: (Finish, String))
    ensures
        final(live)@ == ended(*opts, old(live)@),
        r.0@ == finish_spec(*opts, old(live)@.cursor),
        r.1@ == (match finish_spec(*opts, old(live)@.cursor) {
            FinishView::NoState => Seq::<char>::empty(),
            FinishView::Complete(line) => old(live)@.printed(line),
            FinishView::Saved(_, line) => old(live)@.printed(line),
        }),
        old(live)@.wf() ==> final(live)@.wf(),
{
    live.running = false;
    let f: Finish = finish(opts, live.cursor);
    let printed: String = match &f {
        Finish::NoState => {
            let none: String = String::new();
            assert(none@ =~= Seq::empty());
            none
        },
        Finish::Complete(line) => live.banner(line.as_str()),
        Finish::Saved(_, line) => live.banner(line.as_str()),
    };
    (f, printed)
}

/// The state of a scan that is over; `pps` is the rate that it had.
pub open spec fn closed(v: LiveView, pps: Seq<char>) -> LiveView {
    v.logged(done_text_spec(v.stats, pps)).in_phase(Phase::Done)
}

/// A scan is over. Gives what standard error gets.
pub fn close(live: &mut Live, pps: &str) -> (printed: String)
    ensures
        final(live)@ == closed(old(live)@, pps@),
        printed@ == (if old(live)@.tty && !old(live)@.quiet {
            seq!['\n']
        } else {
            Seq::<char>::empty()
        }) + old(live)@.printed(done_text_spec(old(live)@.stats, pps@)),
        old(live)@.wf() ==> final(live)@.wf(),
{
    let mut printed: String = live.finish_tty();
    let line: String = done_text(&live.stats, pps);
    let shown: String = live.banner(line.as_str());
    printed.append(shown.as_str());
    live.set_phase(Phase::Done);
    printed
}

/// From its begin to its end a scan keeps within bounds; between begin and end it runs, and after
/// its end it does not.
pub proof fn a_run_has_its_course(opts: RunOpts, v: LiveView, lines: Seq<Seq<char>>, pps: Seq<char>)
    ensures
        ({
            let running = logged_all(v.begun(opts.total_pkts, opts.space.total, opts.skip), lines);
            let halted = ended(opts, running);
            let over = closed(halted, pps);
            &&& running.wf() && running.running && running.phase == Phase::Running
            &&& running.cursor == opts.skip
            &&& halted.wf() && !halted.running
            &&& over.wf() && !over.running && over.phase == Phase::Done
        }),
{
    lemma_logged_all(v.begun(opts.total_pkts, opts.space.total, opts.skip), lines);
}

} // verus!
