//! The OpenAI-compatible virtual completion endpoint: token estimates, the
//! echoed reply, usage totals, streamed words and the per-client rate window.
//! No model is ever called.

use vstd::prelude::*;

use vstd::string::StrSliceExecFns;

use crate::seqs::strs;

verus! {

/// `c` is white space in Unicode's sense (the White_Space property), as
/// `char::is_whitespace` decides.
pub open spec fn is_ws(c: char) -> bool {
    let u = c as u32;
    (9 <= u <= 13) || u == 32 || u == 0x85 || u == 0xA0 || u == 0x1680 || (0x2000 <= u <= 0x200A) || u == 0x2028
        || u == 0x2029 || u == 0x202F || u == 0x205F || u == 0x3000
}

pub fn is_whitespace(c: char) -> (r: bool)
    ensures
        r == is_ws(c),
{
    let u = c as u32;
    (9 <= u && u <= 13) || u == 32 || u == 0x85 || u == 0xA0 || u == 0x1680 || (0x2000 <= u && u <= 0x200A) || u
        == 0x2028 || u == 0x2029 || u == 0x202F || u == 0x205F || u == 0x3000
}

/// Whether a word starts at position `k` of `s`.
pub open spec fn word_start(s: Seq<char>, k: int) -> bool {
    !is_ws(s[k]) && (k == 0 || is_ws(s[k - 1]))
}

/// Number of white-space separated words of `s`.
pub open spec fn word_count(s: Seq<char>) -> nat
    decreases s.len(),
{
    if s.len() == 0 {
        0
    } else {
        word_count(s.drop_last()) + if word_start(s, s.len() - 1) { 1nat } else { 0nat }
    }
}

pub fn count_words(s: &str) -> (n: usize)
    ensures
        n == word_count(s@),
{
    let len = s.unicode_len();
    let mut n: usize = 0;
    let mut prev_ws = true;
    let mut i: usize = 0;
    while i < len
        invariant
            len == s@.len(),
            i <= len,
            n == word_count(s@.take(i as int)),
            n <= i,
            i > 0 ==> prev_ws == is_ws(s@[i - 1]),
            i == 0 ==> prev_ws,
        decreases len - i,
    {
        let c = s.get_char(i);
        let ws = is_whitespace(c);
        proof {
            let t = s@.take(i as int + 1);
            assert(t.drop_last() == s@.take(i as int));
            assert(t[i as int] == c);
            if i > 0 {
                assert(t[i - 1] == s@[i - 1]);
            }
        }
        if !ws && prev_ws {
            n = n + 1;
        }
        prev_ws = ws;
        i = i + 1;
    }
    proof {
        assert(s@.take(i as int) == s@);
    }
    n
}

/// A chat message.
#[derive(Debug, Clone)]
pub struct ChatMessage {
    pub role: String,
    pub content: String,
}

/// A chat completion request.
#[derive(Debug, Clone)]
pub struct ChatCompletionRequest {
    pub model: String,
    pub messages: Vec<ChatMessage>,
    pub stream: bool,
    pub max_tokens: i64,
}

/// Tokens asked for when a request names none.
pub fn default_max_tokens() -> (n: i64)
    ensures
        n == 128,
{
    128
}

/// Estimated input tokens: each message counts its words, at least one.
pub open spec fn input_estimate(ms: Seq<ChatMessage>) -> int
    decreases ms.len(),
{
    if ms.len() == 0 {
        0
    } else {
        let w = word_count(ms.last().content@);
        input_estimate(ms.drop_last()) + if w >= 1 { w as int } else { 1 }
    }
}

proof fn lemma_input_estimate_bounds(ms: Seq<ChatMessage>)
    ensures
        ms.len() <= input_estimate(ms),
    decreases ms.len(),
{
    if ms.len() > 0 {
        lemma_input_estimate_bounds(ms.drop_last());
    }
}

/// `x` clamped to `[lo, hi]`.
pub open spec fn clamp(x: int, lo: int, hi: int) -> int {
    if x < lo { lo } else if x > hi { hi } else { x }
}

/// Input tokens, and the default output: half the input clamped to [16, 512].
pub fn estimate_tokens(messages: &Vec<ChatMessage>) -> (r: (i64, i64))
    requires
        input_estimate(messages@) <= i64::MAX,
    ensures
        r.0 == input_estimate(messages@),
        r.1 == clamp(input_estimate(messages@) / 2, 16, 512),
{
    let mut total: i64 = 0;
    let mut i: usize = 0;
    while i < messages.len()
        invariant
            i <= messages@.len(),
            total == input_estimate(messages@.take(i as int)),
            input_estimate(messages@) <= i64::MAX,
        decreases messages.len() - i,
    {
        let w = count_words(messages[i].content.as_str());
        let ghost t = messages@.take(i as int + 1);
        proof {
            assert(t.drop_last() == messages@.take(i as int));
            assert(t.last() == messages@[i as int]);
            lemma_input_prefix(messages@, i as int + 1);
            lemma_input_estimate_bounds(messages@.take(i as int));
            assert(input_estimate(t) == input_estimate(messages@.take(i as int)) + (if w >= 1 { w as int } else { 1 }));
        }
        let add: i64 = if w >= 1 { w as i64 } else { 1 };
        total = total + add;
        i = i + 1;
    }
    proof {
        assert(messages@.take(i as int) == messages@);
    }
    let half = total / 2;
    let out: i64 = if half < 16 { 16 } else if half > 512 { 512 } else { half };
    (total, out)
}

/// The estimate of a prefix is no larger than the whole one's.
proof fn lemma_input_prefix(ms: Seq<ChatMessage>, k: int)
    requires
        0 <= k <= ms.len(),
    ensures
        input_estimate(ms.take(k)) <= input_estimate(ms),
    decreases ms.len() - k,
{
    if k < ms.len() {
        assert(ms.drop_last().take(k) == ms.take(k));
        lemma_input_prefix(ms.drop_last(), k);
    } else {
        assert(ms.take(k) == ms);
    }
}

/// Output tokens: the request's `max_tokens` unless it is zero, else the default.
pub fn output_tokens(max_tokens: i64, default_output: i64) -> (n: i64)
    ensures
        n == if max_tokens != 0 { max_tokens } else { default_output },
{
    if max_tokens != 0 {
        max_tokens
    } else {
        default_output
    }
}

/// Usage totals `(prompt, completion, total)`.
pub fn usage(input_tokens: i64, output_tokens: i64) -> (u: (i64, i64, i64))
    requires
        i64::MIN <= input_tokens + output_tokens <= i64::MAX,
    ensures
        u == (input_tokens, output_tokens, (input_tokens + output_tokens) as i64),
{
    (input_tokens, output_tokens, input_tokens + output_tokens)
}

/// Reply when the request holds no assistant text.
pub open spec fn fallback_reply() -> Seq<char> {
    "Zyvor Janus virtual completion."@
}

/// Contents of the assistant messages of `ms`, joined by single spaces.
pub open spec fn assistant_text(ms: Seq<ChatMessage>) -> Seq<char>
    decreases ms.len(),
{
    if ms.len() == 0 {
        Seq::empty()
    } else {
        let d = assistant_text(ms.drop_last());
        let m = ms.last();
        if m.role@ == "assistant"@ {
            if has_assistant(ms.drop_last()) { d + " "@ + m.content@ } else { m.content@ }
        } else {
            d
        }
    }
}

/// Some message of `ms` is from the assistant.
pub open spec fn has_assistant(ms: Seq<ChatMessage>) -> bool {
    exists|i: int| 0 <= i < ms.len() && (#[trigger] ms[i]).role@ == "assistant"@
}

proof fn lemma_no_assistant_text(ms: Seq<ChatMessage>)
    requires
        !has_assistant(ms),
    ensures
        assistant_text(ms).len() == 0,
    decreases ms.len(),
{
    if ms.len() > 0 {
        assert forall|i: int| 0 <= i < ms.drop_last().len() implies (#[trigger] ms.drop_last()[i]).role@ != "assistant"@ by {
            assert(ms.drop_last()[i] == ms[i]);
        }
        assert(ms.last() == ms[ms.len() - 1]);
        lemma_no_assistant_text(ms.drop_last());
    }
}

/// The echoed reply: the joined assistant text, or the fallback when it is empty.
pub open spec fn reply_text(ms: Seq<ChatMessage>) -> Seq<char> {
    if assistant_text(ms).len() == 0 { fallback_reply() } else { assistant_text(ms) }
}

pub fn assistant_reply(messages: &Vec<ChatMessage>) -> (r: String)
    ensures
        r@ == reply_text(messages@),
{
    let assistant = "assistant".to_owned();
    let mut joined = String::new();
    let mut any = false;
    let mut i: usize = 0;
    while i < messages.len()
        invariant
            i <= messages@.len(),
            assistant@ == "assistant"@,
            joined@ == assistant_text(messages@.take(i as int)),
            any == has_assistant(messages@.take(i as int)),
        decreases messages.len() - i,
    {
        let m = &messages[i];
        let ghost t = messages@.take(i as int + 1);
        let ghost prev = messages@.take(i as int);
        proof {
            assert(t.drop_last() == prev);
            assert(t.last() == messages@[i as int]);
            assert(has_assistant(t) == (has_assistant(prev) || messages@[i as int].role@ == "assistant"@)) by {
                if has_assistant(prev) {
                    let k = choose|k: int| 0 <= k < prev.len() && (#[trigger] prev[k]).role@ == "assistant"@;
                    assert(t[k] == prev[k]);
                }
                if messages@[i as int].role@ == "assistant"@ {
                    assert(t[i as int] == messages@[i as int]);
                }
                if has_assistant(t) {
                    let k = choose|k: int| 0 <= k < t.len() && (#[trigger] t[k]).role@ == "assistant"@;
                    if k < i {
                        assert(prev[k] == t[k]);
                    }
                }
            }
        }
        let ghost before = joined@;
        if m.role == assistant {
            if any {
                joined.append(" ");
            } else {
                proof {
                    lemma_no_assistant_text(prev);
                    assert(before =~= Seq::<char>::empty());
                }
            }
            joined.append(m.content.as_str());
            any = true;
            proof {
                if has_assistant(prev) {
                    assert(joined@ =~= before + " "@ + messages@[i as int].content@);
                } else {
                    assert(joined@ =~= messages@[i as int].content@);
                }
            }
        }
        proof {
            assert(joined@ == assistant_text(t));
        }
        i = i + 1;
    }
    proof {
        assert(messages@.take(i as int) == messages@);
    }
    if joined.as_str().unicode_len() == 0 {
        proof {
            reveal_strlit("Zyvor Janus virtual completion.");
        }
        "Zyvor Janus virtual completion.".to_owned()
    } else {
        joined
    }
}

/// The words of `s`: maximal runs of non-white-space characters, in order.
pub open spec fn words(s: Seq<char>) -> Seq<Seq<char>>
    decreases s.len(),
{
    if s.len() == 0 {
        Seq::empty()
    } else {
        let d = words(s.drop_last());
        let c = s.last();
        if is_ws(c) {
            d
        } else if s.len() >= 2 && !is_ws(s[s.len() - 2]) {
            d.update(d.len() - 1, d.last().push(c))
        } else {
            d.push(seq![c])
        }
    }
}

/// Each of `w` followed by a space.
pub open spec fn spaced(w: Seq<Seq<char>>) -> Seq<Seq<char>> {
    w.map_values(|x: Seq<char>| x + " "@)
}

proof fn lemma_spaced_push(w: Seq<Seq<char>>, x: Seq<char>)
    ensures
        spaced(w.push(x)) == spaced(w).push(x + " "@),
{
    assert(spaced(w.push(x)) =~= spaced(w).push(x + " "@));
}

proof fn lemma_strs_push(v: Seq<String>, x: String)
    ensures
        strs(v.push(x)) == strs(v).push(x@),
{
    assert(strs(v.push(x)) =~= strs(v).push(x@));
}

/// Streamed chunks of a reply: each word followed by a space; a reply without
/// words streams the single word "OK".
pub open spec fn stream_chunks(s: Seq<char>) -> Seq<Seq<char>> {
    spaced(if words(s).len() == 0 { seq!["OK"@] } else { words(s) })
}

pub fn stream_words(content: &str) -> (chunks: Vec<String>)
    ensures
        strs(chunks@) == stream_chunks(content@),
{
    let len = content.unicode_len();
    let mut out: Vec<String> = Vec::new();
    let mut start: usize = 0;
    let mut in_word = false;
    let mut i: usize = 0;
    while i < len
        invariant
            len == content@.len(),
            i <= len,
            start <= i,
            in_word ==> start < i && forall|k: int| start <= k < i ==> !is_ws(#[trigger] content@[k]),
            in_word ==> start == 0 || is_ws(content@[start - 1]),
            in_word == (i > 0 && !is_ws(content@[i - 1])),
            ({
                let w = words(content@.take(i as int));
                if in_word {
                    strs(out@) == spaced(w.drop_last()) && w.len() >= 1 && w.last() == content@.subrange(
                        start as int,
                        i as int,
                    )
                } else {
                    strs(out@) == spaced(w)
                }
            }),
        decreases len - i,
    {
        let c = content.get_char(i);
        let ws = is_whitespace(c);
        let ghost t = content@.take(i as int + 1);
        proof {
            assert(t.drop_last() == content@.take(i as int));
            assert(t.last() == c);
            if i > 0 {
                assert(t[i - 1] == content@[i - 1]);
            }
        }
        if ws {
            if in_word {
                let mut w = content.substring_char(start, i).to_owned();
                w.append(" ");
                let ghost before = out@;
                out.push(w);
                proof {
                    let wt = words(t);
                    assert(wt == words(content@.take(i as int)));
                    assert(wt.drop_last().push(wt.last()) == wt);
                    lemma_strs_push(before, w);
                    lemma_spaced_push(wt.drop_last(), wt.last());
                }
            } else {
                proof {
                    assert(words(t) == words(content@.take(i as int)));
                }
            }
            in_word = false;
        } else {
            if !in_word {
                start = i;
                proof {
                    let w0 = words(content@.take(i as int));
                    assert(words(t) == w0.push(seq![c]));
                    assert(words(t).drop_last() == w0);
                    assert(content@.subrange(start as int, i as int + 1) =~= seq![c]);
                }
            } else {
                proof {
                    let w0 = words(content@.take(i as int));
                    assert(words(t) == w0.update(w0.len() - 1, w0.last().push(c)));
                    assert(words(t).drop_last() =~= w0.drop_last());
                    assert(content@.subrange(start as int, i as int + 1) =~= content@.subrange(start as int, i as int).push(c));
                }
            }
            in_word = true;
        }
        i = i + 1;
    }
    proof {
        assert(content@.take(i as int) == content@);
    }
    if in_word {
        let mut w = content.substring_char(start, len).to_owned();
        w.append(" ");
        let ghost before = out@;
        out.push(w);
        proof {
            let wt = words(content@);
            assert(wt.drop_last().push(wt.last()) == wt);
            lemma_strs_push(before, w);
            lemma_spaced_push(wt.drop_last(), wt.last());
        }
    }
    if out.len() == 0 {
        proof {
            reveal_strlit("OK ");
            reveal_strlit("OK");
            reveal_strlit(" ");
            assert(spaced(words(content@)).len() == 0);
            assert(words(content@).len() == 0);
        }
        let ghost before = out@;
        out.push("OK ".to_owned());
        proof {
            lemma_strs_push(before, out@.last());
            reveal_strlit("OK ");
            reveal_strlit("OK");
            reveal_strlit(" ");
            assert("OK "@ =~= "OK"@ + " "@);
            assert(strs(before) =~= Seq::<Seq<char>>::empty());
            assert(spaced(seq!["OK"@]) =~= seq!["OK"@ + " "@]);
            assert(strs(out@) =~= stream_chunks(content@));
        }
    }
    out
}

/// Requests of a client kept in its sliding window at `now` (milliseconds):
/// those less than a minute old.
pub open spec fn in_window(w: Seq<u64>, now: u64) -> Seq<u64> {
    w.filter(|t: u64| (if now >= t { now - t } else { 0 }) < 60_000)
}

/// A client's window after a request at `now`: the requests of the last minute,
/// plus `now` when fewer than `limit` of them were there.
pub open spec fn window_after(w: Seq<u64>, now: u64, limit: u32) -> Seq<u64> {
    if in_window(w, now).len() < limit {
        in_window(w, now).push(now)
    } else {
        in_window(w, now)
    }
}

/// Admits a request of a client at `now` (milliseconds) when fewer than `limit`
/// of its requests fall in the last minute; the window keeps only those, plus
/// `now` when admitted.
pub fn admit_request(window: &mut Vec<u64>, now: u64, limit: u32) -> (admitted: bool)
    ensures
        admitted == (in_window(old(window)@, now).len() < limit),
        final(window)@ == window_after(old(window)@, now, limit),
{
    let ghost w0 = window@;
    let mut kept: Vec<u64> = Vec::new();
    let mut i: usize = 0;
    while i < window.len()
        invariant
            window@ == w0,
            i <= w0.len(),
            kept@ == in_window(w0.take(i as int), now),
        decreases window.len() - i,
    {
        let t = window[i];
        let age: u64 = if now >= t { now - t } else { 0 };
        proof {
            crate::seqs::lemma_filter_take_step(
                w0,
                |t: u64| (if now >= t { now - t } else { 0 }) < 60_000,
                i as int,
            );
        }
        if age < 60_000 {
            kept.push(t);
        }
        i = i + 1;
    }
    proof {
        assert(w0.take(i as int) == w0);
    }
    if kept.len() >= limit as usize {
        *window = kept;
        false
    } else {
        kept.push(now);
        *window = kept;
        true
    }
}


/// The rate limiter keeps each client's window within its cap: a window of at
/// most `limit` requests still holds at most `limit` after any request, admitted
/// or not.
pub proof fn law_window_capped(w: Seq<u64>, now: u64, limit: u32)
    requires
        w.len() <= limit,
    ensures
        window_after(w, now, limit).len() <= limit,
{
    w.lemma_filter_len(|t: u64| (if now >= t { now - t } else { 0 }) < 60_000);
}


/// The input estimate counts each message on its own: a conversation's estimate
/// is the sum of its parts', and one message counts its words, at least one.
pub proof fn law_input_estimate_additive(a: Seq<ChatMessage>, b: Seq<ChatMessage>, m: ChatMessage)
    ensures
        input_estimate(a + b) == input_estimate(a) + input_estimate(b),
        input_estimate(seq![m]) == if word_count(m.content@) >= 1 { word_count(m.content@) as int } else { 1 },
        input_estimate(a) >= a.len(),
    decreases b.len(),
{
    lemma_input_estimate_bounds(a);
    if b.len() == 0 {
        assert(a + b == a);
    } else {
        law_input_estimate_additive(a, b.drop_last(), m);
        assert((a + b).drop_last() == a + b.drop_last());
        assert((a + b).last() == b.last());
    }
    assert(seq![m].drop_last() == Seq::<ChatMessage>::empty());
    assert(input_estimate(Seq::<ChatMessage>::empty()) == 0);
    assert(seq![m].last() == m);
}

/// The rate window keeps exactly the requests less than a minute old.
pub proof fn law_window_recent(w: Seq<u64>, now: u64)
    ensures
        forall|i: int| 0 <= i < in_window(w, now).len() ==> now < #[trigger] in_window(w, now)[i] + 60_000,
        forall|i: int| 0 <= i < w.len() && now < #[trigger] w[i] + 60_000 ==> in_window(w, now).contains(w[i]),
        forall|i: int| 0 <= i < in_window(w, now).len() ==> w.contains(#[trigger] in_window(w, now)[i]),
{
    let pred = |t: u64| (if now >= t { now - t } else { 0 }) < 60_000;
    w.filter_lemma(pred);
    assert forall|i: int| 0 <= i < in_window(w, now).len() implies w.contains(#[trigger] in_window(w, now)[i]) by {
        assert(in_window(w, now).contains(in_window(w, now)[i]));
        w.lemma_filter_contains_rev(pred, in_window(w, now)[i]);
    }
    assert forall|i: int| 0 <= i < in_window(w, now).len() implies now < #[trigger] in_window(w, now)[i] + 60_000 by {
        assert(pred(in_window(w, now)[i]));
    }
    assert forall|i: int| 0 <= i < w.len() && now < #[trigger] w[i] + 60_000 implies in_window(w, now).contains(w[i]) by {
        assert(pred(w[i]));
    }
}


/// Counting words and splitting into words agree: `word_count` is the number of
/// maximal runs of non-white-space characters, each a non-empty run holding no
/// white space.
pub proof fn law_word_count_is_words(s: Seq<char>)
    ensures
        word_count(s) == words(s).len(),
        forall|i: int| 0 <= i < words(s).len() ==> (#[trigger] words(s)[i]).len() > 0,
        forall|i: int, k: int| 0 <= i < words(s).len() && 0 <= k < words(s)[i].len() ==> !is_ws(#[trigger] words(s)[i][k]),
        s.len() > 0 && !is_ws(s.last()) ==> words(s).len() > 0,
    decreases s.len(),
{
    if s.len() > 0 {
        let d = s.drop_last();
        law_word_count_is_words(d);
        let w = words(d);
        let c = s.last();
        let k = s.len() - 1;
        assert(s[k] == c);
        if k > 0 {
            assert(s[k - 1] == d.last());
        }
        if !is_ws(c) && s.len() >= 2 && !is_ws(s[s.len() - 2]) {
            let w2 = w.update(w.len() - 1, w.last().push(c));
            assert forall|i: int| 0 <= i < w2.len() implies (#[trigger] w2[i]).len() > 0 by {
                if i < w.len() - 1 {
                    assert(w2[i] == w[i]);
                }
            }
            assert forall|i: int, m: int| 0 <= i < w2.len() && 0 <= m < w2[i].len() implies !is_ws(#[trigger] w2[i][m]) by {
                if i < w.len() - 1 {
                    assert(w2[i] == w[i]);
                } else {
                    assert(w.last() == w[w.len() - 1]);
                    if m < w.last().len() {
                        assert(w2[i][m] == w[w.len() - 1][m]);
                    }
                }
            }
        } else if !is_ws(c) {
            let w2 = w.push(seq![c]);
            assert forall|i: int| 0 <= i < w2.len() implies (#[trigger] w2[i]).len() > 0 by {
                if i < w.len() {
                    assert(w2[i] == w[i]);
                }
            }
            assert forall|i: int, m: int| 0 <= i < w2.len() && 0 <= m < w2[i].len() implies !is_ws(#[trigger] w2[i][m]) by {
                if i < w.len() {
                    assert(w2[i] == w[i]);
                }
            }
        }
    }
}

} // verus!
