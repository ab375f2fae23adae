//! How often the link reads the MumbleLink block and which reads it sends
//! on. The caller sleeps, reads and sends; the decisions are taken here.

use vstd::prelude::*;

verus! {

/// How the link paces its reads once connected.
#[derive(Clone, Copy, Debug, PartialEq, Eq)]
pub enum Pacing {
    /// Only new frames are sent; a new frame halves the wait.
    Halve,
    /// Only new frames are sent; a new frame shortens the wait by 1 ms.
    StepDown,
    /// Every read is sent, 8 ms apart.
    Steady,
}

/// What one read of the block gave: nothing usable, or a frame with its
/// `ui_tick`.
#[derive(Clone, Copy, Debug, PartialEq, Eq)]
pub enum LinkRead {
    Failed,
    Frame(i64),
}

/// What to do after a read: whether to send the frame on, and how many
/// milliseconds to wait before the next read.
#[derive(Clone, Copy, Debug, PartialEq, Eq)]
pub struct LinkStep {
    pub send: bool,
    pub wait_ms: u64,
}

/// The pacing state. Until the game shows a `ui_tick` above 0 the link is
/// connecting and reads once a second.
#[derive(Clone, Copy, Debug, PartialEq, Eq)]
pub struct LinkPacer {
    pub pacing: Pacing,
    pub connected: bool,
    /// The `ui_tick` of the last frame sent on.
    pub last_ui_tick: i64,
    /// The wait between reads, in milliseconds.
    pub tick_rate: u64,
    /// How many reads in a row brought no new frame.
    pub fast_count: i32,
}

/// The wait after a new frame.
pub open spec fn sped_up(pacing: Pacing, rate: u64) -> u64 {
    match pacing {
        Pacing::Halve => rate / 2,
        _ => if rate > 0 {
            (rate - 1) as u64
        } else {
            0
        },
    }
}

/// One step of the pacer: its next state and what to do.
pub open spec fn pacer_step(p: LinkPacer, read: LinkRead) -> (LinkPacer, LinkStep) {
    if !p.connected {
        match read {
            LinkRead::Frame(t) => if t > 0 {
                (LinkPacer { connected: true, ..p }, LinkStep { send: false, wait_ms: p.tick_rate })
            } else {
                (p, LinkStep { send: false, wait_ms: 1000 })
            },
            LinkRead::Failed => (p, LinkStep { send: false, wait_ms: 1000 }),
        }
    } else if p.pacing == Pacing::Steady {
        match read {
            LinkRead::Frame(t) => (p, LinkStep { send: true, wait_ms: 8 }),
            LinkRead::Failed => (p, LinkStep { send: false, wait_ms: 0 }),
        }
    } else {
        match read {
            LinkRead::Frame(t) => if t > p.last_ui_tick {
                let rate = sped_up(p.pacing, p.tick_rate);
                (
                    LinkPacer { last_ui_tick: t, tick_rate: rate, fast_count: 0, ..p },
                    LinkStep { send: true, wait_ms: rate },
                )
            } else {
                let fast = (p.fast_count + 1) as i32;
                let rate = if fast > 3 {
                    (p.tick_rate + 1) as u64
                } else {
                    p.tick_rate
                };
                (
                    LinkPacer { tick_rate: rate, fast_count: fast, ..p },
                    LinkStep { send: false, wait_ms: rate },
                )
            },
            LinkRead::Failed => (p, LinkStep { send: false, wait_ms: p.tick_rate }),
        }
    }
}

/// A stale frame can be counted without overflow.
pub open spec fn step_fits(p: LinkPacer, read: LinkRead) -> bool {
    match read {
        LinkRead::Frame(t) => (p.connected && p.pacing != Pacing::Steady && t <= p.last_ui_tick)
            ==> p.fast_count < i32::MAX && p.tick_rate < u64::MAX,
        LinkRead::Failed => true,
    }
}

impl LinkPacer {
    /// A pacer that has not connected yet.
    pub fn new(pacing: Pacing) -> (p: LinkPacer)
        ensures
            p == (LinkPacer {
                pacing,
                connected: false,
                last_ui_tick: 0,
                tick_rate: 0,
                fast_count: 0,
            }),
    {
        LinkPacer { pacing, connected: false, last_ui_tick: 0, tick_rate: 0, fast_count: 0 }
    }

    /// Takes the outcome of a read and says what to do next. While
    /// connecting, a frame with a `ui_tick` above 0 connects, and anything
    /// else waits a second. Once connected, a new frame is sent and speeds
    /// reading up; after more than three reads in a row without one,
    /// every further such read slows reading down by 1 ms.
    pub fn step(&mut self, read: LinkRead) -> (s: LinkStep)
        requires
            step_fits(*old(self), read),
        ensures
            (*final(self), s) == pacer_step(*old(self), read),
    {
        if !self.connected {
            match read {
                LinkRead::Frame(t) => {
                    if t > 0 {
                        self.connected = true;
                        LinkStep { send: false, wait_ms: self.tick_rate }
                    } else {
                        LinkStep { send: false, wait_ms: 1000 }
                    }
                },
                LinkRead::Failed => LinkStep { send: false, wait_ms: 1000 },
            }
        } else {
            match self.pacing {
                Pacing::Steady => match read {
                    LinkRead::Frame(_) => LinkStep { send: true, wait_ms: 8 },
                    LinkRead::Failed => LinkStep { send: false, wait_ms: 0 },
                },
                _ => match read {
                    LinkRead::Frame(t) => {
                        if t > self.last_ui_tick {
                            self.last_ui_tick = t;
                            if self.tick_rate > 0 {
                                match self.pacing {
                                    Pacing::Halve => {
                                        self.tick_rate = self.tick_rate / 2;
                                    },
                                    _ => {
                                        self.tick_rate = self.tick_rate - 1;
                                    },
                                }
                            }
                            self.fast_count = 0;
                            LinkStep { send: true, wait_ms: self.tick_rate }
                        } else {
                            self.fast_count = self.fast_count + 1;
                            if self.fast_count > 3 {
                                self.tick_rate = self.tick_rate + 1;
                            }
                            LinkStep { send: false, wait_ms: self.tick_rate }
                        }
                    },
                    LinkRead::Failed => LinkStep { send: false, wait_ms: self.tick_rate },
                },
            }
        }
    }
}

/// The pacer after a run of reads.
pub open spec fn pacer_after(p: LinkPacer, reads: Seq<LinkRead>) -> LinkPacer
    decreases reads.len(),
{
    if reads.len() == 0 {
        p
    } else {
        pacer_step(pacer_after(p, reads.drop_last()), reads.last()).0
    }
}

/// The `ui_tick`s of the frames sent during a run of reads, in order.
pub open spec fn sent_ticks(p: LinkPacer, reads: Seq<LinkRead>) -> Seq<i64>
    decreases reads.len(),
{
    if reads.len() == 0 {
        Seq::empty()
    } else {
        let rest = sent_ticks(p, reads.drop_last());
        let before = pacer_after(p, reads.drop_last());
        match reads.last() {
            LinkRead::Frame(t) => if pacer_step(before, reads.last()).1.send {
                rest.push(t)
            } else {
                rest
            },
            LinkRead::Failed => rest,
        }
    }
}

/// Paced by new frames, the link never sends a frame twice nor an older
/// one: the frames it sends have strictly increasing `ui_tick`s, all above
/// the last one it had sent before.
pub proof fn law_sent_ticks_increase(p: LinkPacer, reads: Seq<LinkRead>)
    requires
        p.pacing != Pacing::Steady,
    ensures
        forall|i: int, j: int|
            0 <= i < j < sent_ticks(p, reads).len() ==> sent_ticks(p, reads)[i] < sent_ticks(
                p,
                reads,
            )[j],
        forall|i: int|
            0 <= i < sent_ticks(p, reads).len() ==> p.last_ui_tick < #[trigger] sent_ticks(
                p,
                reads,
            )[i] <= pacer_after(p, reads).last_ui_tick,
        p.last_ui_tick <= pacer_after(p, reads).last_ui_tick,
        pacer_after(p, reads).pacing == p.pacing,
    decreases reads.len(),
{
    if reads.len() > 0 {
        let init = reads.drop_last();
        law_sent_ticks_increase(p, init);
        let before = pacer_after(p, init);
        let s0 = sent_ticks(p, init);
        let s = sent_ticks(p, reads);
        match reads.last() {
            LinkRead::Frame(t) => {
                if pacer_step(before, reads.last()).1.send {
                    assert(s == s0.push(t));
                    assert forall|i: int, j: int| 0 <= i < j < s.len() implies s[i] < s[j] by {
                        if j < s0.len() {
                            assert(s0[i] < s0[j]);
                        } else {
                            assert(s0[i] <= before.last_ui_tick);
                        }
                    }
                    assert forall|i: int| 0 <= i < s.len() implies p.last_ui_tick < #[trigger] s[i]
                        <= pacer_after(p, reads).last_ui_tick by {
                        if i < s0.len() {
                            assert(s0[i] == s[i]);
                        }
                    }
                } else {
                    assert(s == s0);
                }
            },
            LinkRead::Failed => {
                assert(s == s0);
            },
        }
    }
}

/// A read brings a frame newer than the last one sent, once connected.
pub open spec fn fresh_frame(p: LinkPacer, read: LinkRead) -> bool {
    p.connected && match read {
        LinkRead::Frame(t) => t > p.last_ui_tick,
        LinkRead::Failed => false,
    }
}

/// Run from a new pacer that paces by new frames, the link sends only
/// frames with a `ui_tick` above 0, each above the one sent before it; and a
/// frame read once connected is sent exactly when its tick is above the last
/// one sent.
pub proof fn law_link_run(pacing: Pacing, reads: Seq<LinkRead>)
    requires
        pacing != Pacing::Steady,
    ensures
        ({
            let p = LinkPacer { pacing, connected: false, last_ui_tick: 0, tick_rate: 0, fast_count: 0 };
            &&& forall|i: int, j: int|
                0 <= i < j < sent_ticks(p, reads).len() ==> sent_ticks(p, reads)[i] < sent_ticks(
                    p,
                    reads,
                )[j]
            &&& forall|i: int| 0 <= i < sent_ticks(p, reads).len() ==> 0 < #[trigger] sent_ticks(p, reads)[i]
            &&& forall|i: int|
                0 <= i < reads.len() ==> (#[trigger] pacer_step(pacer_after(p, reads.take(i)), reads[i])).1.send
                    == fresh_frame(pacer_after(p, reads.take(i)), reads[i])
        }),
{
    let p = LinkPacer { pacing, connected: false, last_ui_tick: 0, tick_rate: 0, fast_count: 0 };
    law_sent_ticks_increase(p, reads);
    assert forall|i: int| 0 <= i < reads.len() implies (#[trigger] pacer_step(
        pacer_after(p, reads.take(i)),
        reads[i],
    )).1.send == fresh_frame(pacer_after(p, reads.take(i)), reads[i]) by {
        law_sent_ticks_increase(p, reads.take(i));
    }
}

} // verus!
