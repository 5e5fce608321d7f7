//! The internet uplink: what a probe says of it, and what is shown.
use vstd::prelude::*;

use crate::bytes::{output_text, text_in};
use crate::text::{blank, is_space, law_white_space_parts_words, same, word_seq, words};

verus! {

/// The server that answers a probe where nothing stands between.
pub const PROBE_HOST: &'static str = "connectivitycheck.gstatic.com";

/// The probe: a page that is known to be answered with `204`.
pub const PROBE_REQUEST: &'static str =
    "GET /generate_204 HTTP/1.1\r\nHost: connectivitycheck.gstatic.com\r\nConnection: close\r\n\r\n";

/// What is known of the uplink.
#[derive(Clone, Copy, PartialEq, Eq, Structural)]
pub enum Uplink {
    /// Not probed yet.
    Unknown,
    /// The internet is there.
    Full,
    /// Something else answers in its place: a sign-in page.
    Portal,
    /// Nothing answers.
    Offline,
}

impl Uplink {
    pub open spec fn spec_word(self) -> Seq<char> {
        match self {
            Uplink::Unknown => "unknown"@,
            Uplink::Full => "full"@,
            Uplink::Portal => "portal"@,
            Uplink::Offline => "none"@,
        }
    }

    /// The word that the dashboard shows it by.
    pub fn word(self) -> (r: &'static str)
        ensures
            r@ == self.spec_word(),
    {
        match self {
            Uplink::Unknown => "unknown",
            Uplink::Full => "full",
            Uplink::Portal => "portal",
            Uplink::Offline => "none",
        }
    }
}

/// What a reply to the probe says: its second word is the status.
pub open spec fn verdict_of(reply: Seq<char>) -> Uplink {
    if word_seq(reply).len() < 2 {
        Uplink::Offline
    } else if word_seq(reply)[1] == "204"@ {
        Uplink::Full
    } else {
        Uplink::Portal
    }
}

/// Judges the text of a reply.
pub fn judge(reply: &str) -> (r: Uplink)
    ensures
        r == verdict_of(reply@),
{
    let ws = words(reply);
    if ws.len() < 2 {
        return Uplink::Offline;
    }
    assert(ws.deep_view()[1] == ws@[1]@);
    if same(ws[1].as_str(), "204") {
        Uplink::Full
    } else {
        Uplink::Portal
    }
}

/// Judges a probe by the first bytes that came back, if any did.
pub fn probe_uplink(reply: &Option<Vec<u8>>) -> (r: Uplink)
    ensures
        r == match reply {
            Some(bytes) => verdict_of(text_in(bytes@)),
            None => Uplink::Offline,
        },
{
    match reply {
        Some(bytes) => judge(output_text(bytes.as_slice()).as_str()),
        None => Uplink::Offline,
    }
}

/// How many probes must agree before bad news is shown.
pub const AGREEING: u32 = 3;

/// What is shown of the uplink, and how often the last verdict has come in a row.
pub struct Monitor {
    shown: Uplink,
    last: Uplink,
    streak: u32,
}

/// A monitor, in contracts.
pub struct Watch {
    pub shown: Uplink,
    pub last: Uplink,
    pub streak: u32,
}

impl View for Monitor {
    type V = Watch;

    closed spec fn view(&self) -> Watch {
        Watch { shown: self.shown, last: self.last, streak: self.streak }
    }
}

/// The monitor before the first probe.
pub open spec fn fresh() -> Watch {
    Watch { shown: Uplink::Unknown, last: Uplink::Unknown, streak: 0 }
}

/// The monitor after a probe: good news is shown at once, other news when enough probes in a row
/// agree.
pub open spec fn observed(w: Watch, verdict: Uplink) -> Watch {
    let streak = if verdict != w.last {
        1u32
    } else if w.streak == u32::MAX {
        w.streak
    } else {
        (w.streak + 1) as u32
    };
    Watch {
        shown: if verdict == Uplink::Full || streak >= AGREEING {
            verdict
        } else {
            w.shown
        },
        last: verdict,
        streak,
    }
}

impl Monitor {
    pub fn new() -> (m: Monitor)
        ensures
            m@ == fresh(),
    {
        Monitor { shown: Uplink::Unknown, last: Uplink::Unknown, streak: 0 }
    }

    /// Takes in the verdict of a probe.
    pub fn observe(&mut self, verdict: Uplink)
        ensures
            final(self)@ == observed(old(self)@, verdict),
    {
        if verdict != self.last {
            self.streak = 1;
        } else if self.streak < u32::MAX {
            self.streak = self.streak + 1;
        }
        self.last = verdict;
        if verdict == Uplink::Full || self.streak >= AGREEING {
            self.shown = verdict;
        }
    }

    pub fn shown(&self) -> (r: Uplink)
        ensures
            r == self@.shown,
    {
        self.shown
    }
}

// ---- Laws ----

/// The monitor after probes.
pub open spec fn after_probes(verdicts: Seq<Uplink>) -> Watch
    decreases verdicts.len(),
{
    if verdicts.len() == 0 {
        fresh()
    } else {
        observed(after_probes(verdicts.drop_last()), verdicts.last())
    }
}

/// How often the last verdict has come in a row.
pub open spec fn run(verdicts: Seq<Uplink>) -> nat
    decreases verdicts.len(),
{
    if verdicts.len() == 0 {
        0
    } else if verdicts.len() == 1 || verdicts[verdicts.len() - 2] != verdicts.last() {
        1
    } else {
        run(verdicts.drop_last()) + 1
    }
}

proof fn lemma_streak(verdicts: Seq<Uplink>)
    ensures
        verdicts.len() > 0 ==> after_probes(verdicts).last == verdicts.last(),
        after_probes(verdicts).streak == if run(verdicts) <= u32::MAX {
            run(verdicts) as int
        } else {
            u32::MAX as int
        },
    decreases verdicts.len(),
{
    if verdicts.len() > 0 {
        lemma_streak(verdicts.drop_last());
    }
}

/// A probe that finds the internet is shown at once, whatever was shown before.
pub proof fn law_recovery_is_instant(verdicts: Seq<Uplink>)
    requires
        verdicts.len() > 0,
        verdicts.last() == Uplink::Full,
    ensures
        after_probes(verdicts).shown == Uplink::Full,
{
}

/// Bad news takes three probes in a row that agree: only then does what is shown change to it, and
/// then it does.
pub proof fn law_bad_news_needs_three_probes(verdicts: Seq<Uplink>)
    requires
        verdicts.len() > 0,
        verdicts.last() != Uplink::Full,
    ensures
        after_probes(verdicts).shown == if verdicts.len() >= 3 && verdicts[verdicts.len() - 2]
            == verdicts.last() && verdicts[verdicts.len() - 3] == verdicts.last() {
            verdicts.last()
        } else {
            after_probes(verdicts.drop_last()).shown
        },
{
    lemma_streak(verdicts);
    lemma_run(verdicts);
}

proof fn lemma_run(verdicts: Seq<Uplink>)
    requires
        verdicts.len() > 0,
    ensures
        run(verdicts) >= 1,
        run(verdicts) >= 3 <==> verdicts.len() >= 3 && verdicts[verdicts.len() - 2]
            == verdicts.last() && verdicts[verdicts.len() - 3] == verdicts.last(),
{
    reveal_with_fuel(run, 4);
    let n = verdicts.len();
    let a = verdicts.drop_last();
    if n >= 2 {
        assert(a.last() == verdicts[n - 2]);
        if n >= 3 {
            let b = a.drop_last();
            assert(a[a.len() - 2] == verdicts[n - 3]);
            assert(b.len() > 0);
            assert(run(b) >= 1);
        }
    }
}

/// The internet is there exactly if the status of the reply is 204: every other status comes from
/// something that stands between. A reply without a status comes from nobody.
pub proof fn law_only_204_is_the_internet(
    pad: Seq<char>,
    version: Seq<char>,
    gap: Seq<char>,
    status: Seq<char>,
    rest: Seq<char>,
)
    requires
        blank(pad),
        version.len() > 0,
        forall|i: int| 0 <= i < version.len() ==> !is_space(#[trigger] version[i]),
        gap.len() > 0,
        blank(gap),
        status.len() > 0,
        forall|i: int| 0 <= i < status.len() ==> !is_space(#[trigger] status[i]),
        rest.len() > 0 ==> is_space(rest[0]),
    ensures
        verdict_of(pad + version + (gap + status + rest)) == if status == seq!['2', '0', '4'] {
            Uplink::Full
        } else {
            Uplink::Portal
        },
        verdict_of(pad + version + gap) == Uplink::Offline,
        verdict_of(pad + version + Seq::empty()) == Uplink::Offline,
        verdict_of(pad) == Uplink::Offline,
{
    reveal_strlit("204");
    assert("204"@ =~= seq!['2', '0', '4']);
    let tail = gap + status + rest;
    assert(is_space(gap[0]));
    assert(tail[0] == gap[0]);
    law_white_space_parts_words(pad, version, tail);
    law_white_space_parts_words(gap, status, rest);
    law_white_space_parts_words(pad, version, gap);
    law_white_space_parts_words(Seq::empty(), version, Seq::empty());
    law_white_space_parts_words(pad, version, Seq::empty());
    assert(word_seq(pad + version + tail)[1] == status);
}

/// Each thing that is known of the uplink has a word of its own.
pub proof fn law_words_tell_uplinks_apart(a: Uplink, b: Uplink)
    ensures
        a.spec_word() == b.spec_word() ==> a == b,
        a.spec_word() == "full"@ <==> a is Full,
        a.spec_word() == "portal"@ <==> a is Portal,
        a.spec_word() == "none"@ <==> a is Offline,
        a.spec_word() == "unknown"@ <==> a is Unknown,
{
    reveal_strlit("full");
    reveal_strlit("portal");
    reveal_strlit("none");
    reveal_strlit("unknown");
    assert("full"@[0] == 'f' && "none"@[0] == 'n');
    assert("portal"@.len() == 6 && "unknown"@.len() == 7);
}

/// What a probe found is judged by its text, as the laws on it say; no reply comes from nobody.
pub proof fn law_probes_are_judged(text: &str, bytes: Vec<u8>, none: Option<Vec<u8>>, r: Uplink)
    ensures
        call_ensures(judge, (text,), r) ==> r == verdict_of(text@),
        call_ensures(probe_uplink, (&Some(bytes),), r) ==> r == verdict_of(text_in(bytes@)),
        none is None && call_ensures(probe_uplink, (&none,), r) ==> r == Uplink::Offline,
{
}

/// The probe asks the server that it is named for, for a page that is answered with 204.
pub proof fn law_the_probe_asks_for_204()
    ensures
        PROBE_HOST@ == "connectivitycheck.gstatic.com"@,
        PROBE_REQUEST@ == "GET /generate_204 HTTP/1.1\r\nHost: "@ + PROBE_HOST@
            + "\r\nConnection: close\r\n\r\n"@,
{
    reveal_strlit("connectivitycheck.gstatic.com");
    reveal_strlit("GET /generate_204 HTTP/1.1\r\nHost: ");
    reveal_strlit("\r\nConnection: close\r\n\r\n");
    reveal_strlit(
        "GET /generate_204 HTTP/1.1\r\nHost: connectivitycheck.gstatic.com\r\nConnection: close\r\n\r\n",
    );
    assert(PROBE_REQUEST@ =~= "GET /generate_204 HTTP/1.1\r\nHost: "@ + PROBE_HOST@
        + "\r\nConnection: close\r\n\r\n"@);
}

} // verus!
