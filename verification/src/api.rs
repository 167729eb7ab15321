//! The texts that go to the API and that its answers are shown as.
use crate::solver::Challenge;
use crate::text::{clean_cut, clip, clipped, decimal, decimal_string};
use vstd::prelude::*;
use vstd::utf8::encode_utf8;

verus! {

/// Where the API is found.
pub const API_BASE: &'static str = "https://api.rpow2.com";

/// The address of `path`.
pub fn endpoint(path: &str) -> (url: String)
    ensures
        url@ == API_BASE@ + path@,
        url@ == "https://api.rpow2.com"@ + path@,
{
    let mut url = API_BASE.to_owned();
    url.append(path);
    url
}

/// A solution on its way to the mint.
pub struct MintRequest {
    pub challenge_id: String,
    /// The nonce, in decimal.
    pub solution_nonce: String,
}

impl MintRequest {
    /// The request that answers `challenge` with `nonce`.
    pub fn new(challenge: &Challenge, nonce: u64) -> (request: Self)
        ensures
            request.challenge_id@ == challenge.challenge_id@,
            request.solution_nonce@ == decimal(nonce as nat),
    {
        MintRequest {
            challenge_id: challenge.challenge_id.clone(),
            solution_nonce: decimal_string(nonce),
        }
    }
}

/// How many bytes of a challenge's name are shown.
pub const TAG_LIMIT: usize = 8;

/// The beginning of a challenge's name.
pub fn challenge_tag(challenge: &Challenge) -> (tag: &str)
    requires
        clean_cut(challenge.challenge_id@, TAG_LIMIT as nat),
    ensures
        tag@ == clipped(challenge.challenge_id@, TAG_LIMIT as nat),
        tag@ == clipped(challenge.challenge_id@, 8),
{
    clip(challenge.challenge_id.as_str(), TAG_LIMIT)
}

/// What the mint answers, each value as text.
pub struct MintReply {
    pub reward: Option<String>,
    pub amount: Option<String>,
    pub points: Option<String>,
    pub balance: Option<String>,
    /// All other values, where there are any.
    pub extra: Option<String>,
}

/// How many bytes of an answer without values are shown.
pub const RAW_LIMIT: usize = 100;

/// The part of the reward text for one value, if it is there.
pub open spec fn reward_part(name: Seq<char>, value: Option<String>) -> Seq<Seq<char>> {
    match value {
        Some(text) => seq![name + text@],
        None => Seq::empty(),
    }
}

/// The parts of the reward text.
pub open spec fn reward_parts(reply: MintReply) -> Seq<Seq<char>> {
    reward_part("reward="@, reply.reward) + reward_part("amount="@, reply.amount) + reward_part(
        "points="@,
        reply.points,
    ) + reward_part("balance="@, reply.balance) + reward_part("extra="@, reply.extra)
}

/// `parts` with `sep` between them.
pub open spec fn joined_by(parts: Seq<Seq<char>>, sep: Seq<char>) -> Seq<char>
    decreases parts.len(),
{
    if parts.len() == 0 {
        Seq::empty()
    } else if parts.len() == 1 {
        parts[0]
    } else {
        joined_by(parts.drop_last(), sep) + sep + parts.last()
    }
}

/// The answer holds values to show.
pub open spec fn has_values(reply: Option<MintReply>) -> bool {
    reply matches Some(reply) && reward_parts(reply).len() > 0
}

/// What is shown of the mint's answer: its values, or the beginning of its text.
pub open spec fn reward_shown(reply: Option<MintReply>, body: Seq<char>) -> Seq<char> {
    if has_values(reply) {
        joined_by(reward_parts(reply->0), " | "@)
    } else {
        "raw="@ + clipped(body, RAW_LIMIT as nat)
    }
}

/// Tells whether the answer holds values to show.
pub fn shows_values(reply: &Option<MintReply>) -> (shows: bool)
    ensures
        shows == has_values(*reply),
{
    match reply {
        Some(reply) => reply.reward.is_some() || reply.amount.is_some() || reply.points.is_some()
            || reply.balance.is_some() || reply.extra.is_some(),
        None => false,
    }
}

/// Adds the part for one value to `text`, if it is there.
fn append_part(
    text: &mut String,
    started: bool,
    name: &str,
    value: &Option<String>,
    Ghost(parts): Ghost<Seq<Seq<char>>>,
) -> (now_started: bool)
    requires
        started == (parts.len() > 0),
        old(text)@ == joined_by(parts, " | "@),
    ensures
        now_started == ((parts + reward_part(name@, *value)).len() > 0),
        final(text)@ == joined_by(parts + reward_part(name@, *value), " | "@),
{
    match value {
        Some(value_text) => {
            let ghost part = name@ + value_text@;
            if started {
                text.append(" | ");
            }
            text.append(name);
            text.append(value_text.as_str());
            proof {
                assert(parts + seq![part] =~= parts.push(part));
                assert(parts.push(part).drop_last() =~= parts);
                assert(text@ =~= joined_by(parts.push(part), " | "@));
            }
            true
        },
        None => {
            assert(parts + Seq::<Seq<char>>::empty() =~= parts);
            started
        },
    }
}

/// Writes out what to show of the mint's answer: its values, or the beginning of its text where
/// it could not be read or holds none.
pub fn reward_text(reply: &Option<MintReply>, body: &str) -> (text: String)
    requires
        !has_values(*reply) ==> clean_cut(body@, RAW_LIMIT as nat),
    ensures
        text@ == reward_shown(*reply, body@),
{
    if let Some(values) = reply {
        let mut text = String::new();
        let ghost p0: Seq<Seq<char>> = Seq::empty();
        let ghost p1 = p0 + reward_part("reward="@, values.reward);
        let ghost p2 = p1 + reward_part("amount="@, values.amount);
        let ghost p3 = p2 + reward_part("points="@, values.points);
        let ghost p4 = p3 + reward_part("balance="@, values.balance);
        let ghost p5 = p4 + reward_part("extra="@, values.extra);
        let started = append_part(&mut text, false, "reward=", &values.reward, Ghost(p0));
        let started = append_part(&mut text, started, "amount=", &values.amount, Ghost(p1));
        let started = append_part(&mut text, started, "points=", &values.points, Ghost(p2));
        let started = append_part(&mut text, started, "balance=", &values.balance, Ghost(p3));
        let started = append_part(&mut text, started, "extra=", &values.extra, Ghost(p4));
        assert(p5 =~= reward_parts(*values));
        if started {
            return text;
        }
    }
    let mut text = "raw=".to_owned();
    text.append(clip(body, RAW_LIMIT));
    text
}

/// Whether the mint took the solution: its answer has a status of success.
pub fn mint_accepted(status: u16) -> (accepted: bool)
    ensures
        accepted == (200 <= status < 300),
{
    200 <= status && status < 300
}

/// How many bytes of a refusal are shown.
pub const REFUSAL_LIMIT: usize = 200;

/// What is shown of the answer to a mint that was refused.
pub fn refusal_text(body: &str) -> (text: &str)
    requires
        clean_cut(body@, REFUSAL_LIMIT as nat),
    ensures
        text@ == clipped(body@, REFUSAL_LIMIT as nat),
        text@ == clipped(body@, 200),
{
    clip(body, REFUSAL_LIMIT)
}

/// How many bytes of the answer from a probed path are shown.
pub const PROBE_LIMIT: usize = 120;

/// How many bytes of a probed challenge are shown.
pub const CHALLENGE_LIMIT: usize = 150;

/// The paths that a probe asks for.
pub fn probe_paths() -> (paths: Vec<&'static str>)
    ensures
        paths@ =~= seq![
            "/me",
            "/leaderboard",
            "/stats",
            "/config",
            "/history",
            "/rewards",
            "/balance",
            "/info",
            "/difficulty",
            "/top",
        ],
{
    vec![
        "/me",
        "/leaderboard",
        "/stats",
        "/config",
        "/history",
        "/rewards",
        "/balance",
        "/info",
        "/difficulty",
        "/top",
    ]
}

/// Whether an answer with this status is shown: the path exists and may be read.
pub fn probe_shows(status: u16) -> (shown: bool)
    ensures
        shown == (status != 404 && status != 405),
{
    status != 404 && status != 405
}

/// What is shown of an answer: all of it, or its beginning and three dots.
pub fn probe_preview(body: &str) -> (text: String)
    requires
        clean_cut(body@, PROBE_LIMIT as nat),
    ensures
        text@ == if encode_utf8(body@).len() > PROBE_LIMIT {
            clipped(body@, PROBE_LIMIT as nat) + "..."@
        } else {
            body@
        },
        encode_utf8(body@).len() > 120 ==> text@ == clipped(body@, 120) + "..."@,
        encode_utf8(body@).len() <= 120 ==> text@ == body@,
{
    if body.as_bytes().len() > PROBE_LIMIT {
        let mut text = clip(body, PROBE_LIMIT).to_owned();
        text.append("...");
        text
    } else {
        body.to_owned()
    }
}

/// What is shown of a probed challenge.
pub fn challenge_preview(body: &str) -> (text: &str)
    requires
        clean_cut(body@, CHALLENGE_LIMIT as nat),
    ensures
        text@ == clipped(body@, CHALLENGE_LIMIT as nat),
        text@ == clipped(body@, 150),
{
    clip(body, CHALLENGE_LIMIT)
}

/// What the number of challenges that a probe was given tells.
pub open spec fn verdict_on(challenges: nat) -> Seq<char> {
    if challenges > 1 {
        "BISA PARALLEL!"@
    } else {
        "Hanya 1 per request"@
    }
}

/// What the number of challenges that a probe was given tells.
pub fn probe_verdict(challenges: usize) -> (text: &'static str)
    ensures
        text@ == verdict_on(challenges as nat),
        challenges >= 2 ==> text@ == "BISA PARALLEL!"@,
        challenges <= 1 ==> text@ == "Hanya 1 per request"@,
{
    if challenges > 1 {
        "BISA PARALLEL!"
    } else {
        "Hanya 1 per request"
    }
}

/// How many challenges a probe asks for.
pub const PROBE_CHALLENGES: usize = 3;

/// The pause after each of them, in milliseconds.
pub const PROBE_PAUSE_MILLIS: u64 = 100;

/// The challenges that a probe asks for and is given.
pub struct ProbeTally {
    asked: usize,
    given: usize,
}

impl ProbeTally {
    /// How many challenges have been asked for.
    pub closed spec fn asked(&self) -> nat {
        self.asked as nat
    }

    /// How many of them came and could be read.
    pub closed spec fn given(&self) -> nat {
        self.given as nat
    }

    /// No more challenges come than are asked for, and no more are asked for than there are to be.
    pub open spec fn wf(&self) -> bool {
        self.given() <= self.asked() <= PROBE_CHALLENGES
    }

    /// Nothing has been asked for.
    pub fn new() -> (tally: Self)
        ensures
            tally.wf(),
            tally.asked() == 0,
            tally.given() == 0,
    {
        ProbeTally { asked: 0, given: 0 }
    }

    /// Takes up the next request and gives its number, from 1 on, or tells that there is none.
    pub fn next_request(&mut self) -> (number: Option<usize>)
        requires
            old(self).wf(),
        ensures
            final(self).wf(),
            final(self).given() == old(self).given(),
            old(self).asked() < PROBE_CHALLENGES ==> (number matches Some(n) && n
                == old(self).asked() + 1 && final(self).asked() == n),
            old(self).asked() == PROBE_CHALLENGES ==> number is None && final(self).asked()
                == old(self).asked(),
            number is Some <==> old(self).asked() < 3,
    {
        if self.asked >= PROBE_CHALLENGES {
            return None;
        }
        self.asked = self.asked + 1;
        Some(self.asked)
    }

    /// Counts the answer to the request that was taken up last, if it can be read as a challenge.
    pub fn note(&mut self, readable: bool)
        requires
            old(self).wf(),
            old(self).given() < old(self).asked(),
        ensures
            final(self).wf(),
            final(self).asked() == old(self).asked(),
            final(self).given() == old(self).given() + if readable {
                1int
            } else {
                0
            },
    {
        if readable {
            self.given = self.given + 1;
        }
    }

    /// How many challenges came.
    pub fn count(&self) -> (challenges: usize)
        ensures
            challenges == self.given(),
    {
        self.given
    }

    /// What their number tells.
    pub fn verdict(&self) -> (text: &'static str)
        ensures
            text@ == verdict_on(self.given()),
            self.given() >= 2 ==> text@ == "BISA PARALLEL!"@,
            self.given() <= 1 ==> text@ == "Hanya 1 per request"@,
    {
        probe_verdict(self.given)
    }
}

/// What is shown of an answer, by its values: those that are there, each after its name, in this
/// order and with bars between them, or else the beginning of the text, up to a hundred bytes. (With
/// a bar at its end, what is shown is the values with a bar after each.)
pub proof fn law_reward_shows_the_values(reply: MintReply, body: Seq<char>)
    ensures
        ({
            let shown = seq![
                ("reward="@, reply.reward),
                ("amount="@, reply.amount),
                ("points="@, reply.points),
                ("balance="@, reply.balance),
                ("extra="@, reply.extra),
            ].filter(|v: (Seq<char>, Option<String>)| v.1 is Some).map_values(
                |v: (Seq<char>, Option<String>)| v.0 + v.1->0@,
            );
            &&& has_values(Some(reply)) <==> shown.len() > 0
            &&& shown.len() > 0 ==> reward_shown(Some(reply), body) + " | "@ == shown.map_values(
                |part: Seq<char>| part + " | "@,
            ).flatten()
            &&& shown.len() == 0 ==> reward_shown(Some(reply), body) == "raw="@ + clipped(body, 100)
        }),
{
    let there = |v: (Seq<char>, Option<String>)| v.1 is Some;
    let written = |v: (Seq<char>, Option<String>)| v.0 + v.1->0@;
    let n0 = Seq::<(Seq<char>, Option<String>)>::empty();
    let p0 = Seq::<Seq<char>>::empty();
    assert(n0.filter(there).map_values(written) =~= p0) by {
        reveal(Seq::filter);
    }
    let n1 = n0.push(("reward="@, reply.reward));
    let n2 = n1.push(("amount="@, reply.amount));
    let n3 = n2.push(("points="@, reply.points));
    let n4 = n3.push(("balance="@, reply.balance));
    let n5 = n4.push(("extra="@, reply.extra));
    let p1 = p0 + reward_part("reward="@, reply.reward);
    let p2 = p1 + reward_part("amount="@, reply.amount);
    let p3 = p2 + reward_part("points="@, reply.points);
    let p4 = p3 + reward_part("balance="@, reply.balance);
    let p5 = p4 + reward_part("extra="@, reply.extra);
    lemma_one_more_value(n0, p0, "reward="@, reply.reward);
    lemma_one_more_value(n1, p1, "amount="@, reply.amount);
    lemma_one_more_value(n2, p2, "points="@, reply.points);
    lemma_one_more_value(n3, p3, "balance="@, reply.balance);
    lemma_one_more_value(n4, p4, "extra="@, reply.extra);
    assert(p5 =~= reward_parts(reply));
    assert(n5 =~= seq![
        ("reward="@, reply.reward),
        ("amount="@, reply.amount),
        ("points="@, reply.points),
        ("balance="@, reply.balance),
        ("extra="@, reply.extra),
    ]);
    if p5.len() > 0 {
        lemma_joined_parts(p5, " | "@);
    }
}

/// Of an answer that could not be read, the beginning is shown, up to a hundred bytes.
pub proof fn law_unread_reward_shows_the_text(body: Seq<char>)
    ensures
        !has_values(None),
        reward_shown(None, body) == "raw="@ + clipped(body, 100),
{
}

proof fn lemma_one_more_value(
    named: Seq<(Seq<char>, Option<String>)>,
    parts: Seq<Seq<char>>,
    name: Seq<char>,
    value: Option<String>,
)
    requires
        parts == named.filter(|v: (Seq<char>, Option<String>)| v.1 is Some).map_values(
            |v: (Seq<char>, Option<String>)| v.0 + v.1->0@,
        ),
    ensures
        parts + reward_part(name, value) == named.push((name, value)).filter(
            |v: (Seq<char>, Option<String>)| v.1 is Some,
        ).map_values(|v: (Seq<char>, Option<String>)| v.0 + v.1->0@),
{
    let there = |v: (Seq<char>, Option<String>)| v.1 is Some;
    let written = |v: (Seq<char>, Option<String>)| v.0 + v.1->0@;
    named.lemma_filter_push((name, value), there);
    assert(parts + reward_part(name, value) =~= named.push((name, value)).filter(there).map_values(
        written,
    ));
}

proof fn lemma_joined_parts(parts: Seq<Seq<char>>, sep: Seq<char>)
    requires
        parts.len() > 0,
    ensures
        joined_by(parts, sep) + sep == parts.map_values(|part: Seq<char>| part + sep).flatten(),
    decreases parts.len(),
{
    let ended = |part: Seq<char>| part + sep;
    let ends = parts.map_values(ended);
    if parts.len() == 1 {
        ends.lemma_flatten_one_element();
    } else {
        let fewer = parts.drop_last();
        lemma_joined_parts(fewer, sep);
        fewer.map_values(ended).lemma_flatten_push(parts.last() + sep);
        assert(ends =~= fewer.map_values(ended).push(parts.last() + sep));
        assert(joined_by(parts, sep) + sep =~= joined_by(fewer, sep) + sep + (parts.last() + sep));
    }
}

/// A probe asks for three challenges, a tenth of a second apart.
pub proof fn law_probe_asks_for_three(tally: ProbeTally)
    ensures
        tally.wf() <==> tally.given() <= tally.asked() <= 3,
        PROBE_PAUSE_MILLIS == 100,
{
}

} // verus!
