//! Placing annotations the text matching could not place with the help of
//! a language model: the prompt it is sent, the batches, and the reading
//! of its JSON reply.
use vstd::prelude::*;

use std::collections::HashMap;

use serde_json::Value;

use crate::dsl::generate::{ann_kind_name, ann_type_name};
use crate::text::{
    chars_of, ends_with, ends_with_chars, extend_chars, extend_str, find_chars, find_first, int_text,
    parse_usize, parse_usize_chars, push_usize, slice_chars, starts_with, starts_with_chars, string_of,
    trim, trim_chars, trim_end, trim_end_chars,
};
use crate::zotero::types::{nonempty_text, ZoteroAnnotation};

verus! {

broadcast use vstd::std_specs::hash::group_hash_axioms;

/// The system prompt of a placement request.
pub const LLM_PLACEMENT_SYSTEM_PROMPT: &'static str = "You are a document analyst. You will receive numbered paragraphs from an OCR'd academic document, and a set of annotations that could not be automatically matched to their location in the document.\n\nFor each annotation (labeled ANN_0, ANN_1, etc.), determine which paragraph it most likely belongs to based on semantic similarity, topic overlap, or contextual clues. Return a JSON object mapping annotation labels to paragraph numbers. Use -1 if an annotation genuinely cannot be placed.\n\nReturn ONLY a JSON object, no explanation. Example: {\"ANN_0\": 3, \"ANN_1\": 7, \"ANN_2\": -1}";

/// Annotations per request when they are sent in batches.
pub const LLM_BATCH_SIZE: usize = 10;

/// Up to this many annotations go in a single request.
pub const LLM_MAX_SINGLE_BATCH: usize = 20;

// ---------------------------------------------------------------------
// The prompt
// ---------------------------------------------------------------------

/// At most the first `n` characters.
pub open spec fn first_chars(s: Seq<char>, n: nat) -> Seq<char> {
    if s.len() <= n {
        s
    } else {
        s.take(n as int)
    }
}

/// `P<i>: <first 200 characters of the paragraph>` and a newline.
pub open spec fn paragraph_line(i: int, text: Seq<char>) -> Seq<char> {
    "P"@ + int_text(i) + ": "@ + first_chars(text, 200) + "\n"@
}

/// The paragraph lines of the first `n` paragraphs.
pub open spec fn paragraph_lines(paras: Seq<Seq<char>>, n: int) -> Seq<char>
    decreases n,
{
    if n <= 0 {
        seq![]
    } else {
        paragraph_lines(paras, n - 1) + paragraph_line(n - 1, paras[n - 1])
    }
}

/// `p.<label>` for a non-empty page label, nothing otherwise.
pub open spec fn page_info(a: ZoteroAnnotation) -> Seq<char> {
    match nonempty_text(a.page_label) {
        Some(p) => "p."@ + p,
        None => seq![],
    }
}

/// The first 200 characters of the annotation's text, of its comment when
/// it has no text.
pub open spec fn text_preview(a: ZoteroAnnotation) -> Seq<char> {
    first_chars(
        match a.text {
            Some(t) => t@,
            None => match a.comment {
                Some(c) => c@,
                None => seq![],
            },
        },
        200,
    )
}

/// `ANN_<i>: [<type>, <page>] "<preview>"` and a newline.
pub open spec fn annotation_line(i: int, a: ZoteroAnnotation) -> Seq<char> {
    "ANN_"@ + int_text(i) + ": ["@ + ann_kind_name(a.ann_type) + ", "@ + page_info(a) + "] \""@ + text_preview(a)
        + "\"\n"@
}

/// The annotation lines of the first `n` annotations.
pub open spec fn annotation_lines(anns: Seq<ZoteroAnnotation>, n: int) -> Seq<char>
    decreases n,
{
    if n <= 0 {
        seq![]
    } else {
        annotation_lines(anns, n - 1) + annotation_line(n - 1, anns[n - 1])
    }
}

/// The user prompt: the numbered paragraphs, then the labelled annotations;
/// none when either list is empty.
pub open spec fn prompt_spec(anns: Seq<ZoteroAnnotation>, paras: Seq<Seq<char>>) -> Option<Seq<char>> {
    if anns.len() == 0 || paras.len() == 0 {
        None
    } else {
        Some(
            "## Document Paragraphs\n\n"@ + paragraph_lines(paras, paras.len() as int)
                + "\n## Unmatched Annotations\n\n"@ + annotation_lines(anns, anns.len() as int),
        )
    }
}

/// The annotations of the (position, annotation) pairs.
pub open spec fn unmatched_anns(u: Seq<(usize, &ZoteroAnnotation)>) -> Seq<ZoteroAnnotation> {
    u.map_values(|p: (usize, &ZoteroAnnotation)| *p.1)
}

/// The texts of the (text, line) paragraphs.
pub open spec fn paragraph_texts(p: Seq<(String, usize)>) -> Seq<Seq<char>> {
    p.map_values(|e: (String, usize)| e.0@)
}

/// Appends at most the first `n` characters of `s`.
fn push_first_chars(out: &mut Vec<char>, s: &str, n: usize)
    ensures
        final(out)@ == old(out)@ + first_chars(s@, n as nat),
{
    let v = chars_of(s);
    let k = if v.len() <= n { v.len() } else { n };
    let part = slice_chars(v.as_slice(), 0, k);
    assert(part@ =~= first_chars(s@, n as nat));
    extend_chars(out, part.as_slice());
}

/// Builds the placement prompt for the unmatched annotations (their
/// positions are not used) and the document paragraphs (their line numbers
/// are not used). `None` when either is empty.
#[verifier::rlimit(40)]
pub fn build_llm_placement_prompt(
    unmatched: &[(usize, &ZoteroAnnotation)],
    paragraphs: &[(String, usize)],
) -> (r: Option<String>)
    ensures
        match r {
            Some(p) => prompt_spec(unmatched_anns(unmatched@), paragraph_texts(paragraphs@)) == Some(p@),
            None => prompt_spec(unmatched_anns(unmatched@), paragraph_texts(paragraphs@)) is None,
        },
{
    let ghost anns = unmatched_anns(unmatched@);
    let ghost paras = paragraph_texts(paragraphs@);
    if unmatched.len() == 0 || paragraphs.len() == 0 {
        return None;
    }
    let mut prompt = chars_of("## Document Paragraphs\n\n");
    let ghost head = prompt@;
    let mut i: usize = 0;
    while i < paragraphs.len()
        invariant
            i <= paragraphs@.len(),
            paras == paragraph_texts(paragraphs@),
            prompt@ == head + paragraph_lines(paras, i as int),
        decreases paragraphs.len() - i,
    {
        let ghost before = prompt@;
        extend_str(&mut prompt, "P");
        push_usize(&mut prompt, i);
        extend_str(&mut prompt, ": ");
        push_first_chars(&mut prompt, paragraphs[i].0.as_str(), 200);
        extend_str(&mut prompt, "\n");
        assert(paragraphs@[i as int].0@ == paras[i as int]);
        assert(prompt@ =~= before + paragraph_line(i as int, paras[i as int]));
        i = i + 1;
    }
    extend_str(&mut prompt, "\n## Unmatched Annotations\n\n");
    let ghost mid = prompt@;
    let mut j: usize = 0;
    while j < unmatched.len()
        invariant
            j <= unmatched@.len(),
            anns == unmatched_anns(unmatched@),
            prompt@ == mid + annotation_lines(anns, j as int),
        decreases unmatched.len() - j,
    {
        let ann: &ZoteroAnnotation = unmatched[j].1;
        assert(*ann == anns[j as int]);
        let ghost before = prompt@;
        extend_str(&mut prompt, "ANN_");
        push_usize(&mut prompt, j);
        extend_str(&mut prompt, ": [");
        extend_str(&mut prompt, ann_type_name(ann.ann_type));
        extend_str(&mut prompt, ", ");
        match &ann.page_label {
            Some(p) => {
                if !p.as_str().is_empty() {
                    extend_str(&mut prompt, "p.");
                    extend_str(&mut prompt, p.as_str());
                }
            },
            None => {},
        }
        let ghost after_page = prompt@;
        assert(after_page == before + "ANN_"@ + int_text(j as int) + ": ["@ + ann_kind_name(ann.ann_type) + ", "@
            + page_info(*ann));
        extend_str(&mut prompt, "] \"");
        match &ann.text {
            Some(t) => push_first_chars(&mut prompt, t.as_str(), 200),
            None => match &ann.comment {
                Some(c) => push_first_chars(&mut prompt, c.as_str(), 200),
                None => {
                    assert(first_chars(seq![], 200) =~= seq![]);
                },
            },
        }
        extend_str(&mut prompt, "\"\n");
        assert(prompt@ =~= before + annotation_line(j as int, anns[j as int]));
        j = j + 1;
    }
    Some(string_of(prompt.as_slice()))
}

// ---------------------------------------------------------------------
// Batches
// ---------------------------------------------------------------------

/// The (start, end) ranges of the requests for `n` annotations: one request
/// for up to `LLM_MAX_SINGLE_BATCH`, otherwise consecutive batches of
/// `LLM_BATCH_SIZE` (the last one shorter); none for no annotations.
pub open spec fn batch_ranges_spec(n: nat) -> Seq<(usize, usize)>
    decreases n,
{
    if n == 0 {
        seq![]
    } else if n <= LLM_MAX_SINGLE_BATCH {
        seq![(0usize, n as usize)]
    } else {
        chunk_ranges(n, 0)
    }
}

/// Chunks of `LLM_BATCH_SIZE` covering `from..n`.
pub open spec fn chunk_ranges(n: nat, from: nat) -> Seq<(usize, usize)>
    decreases n - from,
{
    if from >= n {
        seq![]
    } else {
        let end: nat = if from + LLM_BATCH_SIZE < n { (from + LLM_BATCH_SIZE) as nat } else { n };
        seq![(from as usize, end as usize)] + chunk_ranges(n, end)
    }
}

/// The ranges of annotations sent in each placement request.
pub fn llm_batches(n: usize) -> (r: Vec<(usize, usize)>)
    ensures
        r@ == batch_ranges_spec(n as nat),
{
    let mut r: Vec<(usize, usize)> = Vec::new();
    if n == 0 {
        return r;
    }
    if n <= LLM_MAX_SINGLE_BATCH {
        r.push((0, n));
        assert(r@ =~= seq![(0usize, n)]);
        return r;
    }
    let mut from: usize = 0;
    while from < n
        invariant
            from <= n,
            n > LLM_MAX_SINGLE_BATCH,
            r@ + chunk_ranges(n as nat, from as nat) == chunk_ranges(n as nat, 0),
        decreases n - from,
    {
        let end = if n - from > LLM_BATCH_SIZE { from + LLM_BATCH_SIZE } else { n };
        let ghost before = r@;
        r.push((from, end));
        assert(chunk_ranges(n as nat, from as nat) == seq![(from, end)] + chunk_ranges(n as nat, end as nat));
        assert(r@ + chunk_ranges(n as nat, end as nat) =~= before + chunk_ranges(n as nat, from as nat));
        from = end;
    }
    assert(r@ + chunk_ranges(n as nat, from as nat) =~= r@);
    r
}

/// The placements of one batch as placements of the whole list: label `k`
/// of a batch that starts at `start` is annotation `start + k`.
pub open spec fn shifted_placements(m: Map<usize, usize>, start: usize) -> Map<usize, usize> {
    Map::new(
        |j: usize| start <= j && m.contains_key((j - start) as usize),
        |j: usize| m[(j - start) as usize],
    )
}

/// Every label of `m` moved up by `start` is still a `usize`.
pub open spec fn shift_fits(m: Map<usize, usize>, start: usize) -> bool {
    forall|k: usize| #[trigger] m.contains_key(k) ==> start + k <= usize::MAX
}

/// Adds the placements of the batch that starts at `start` to `acc`, its
/// labels moved up by `start`; a batch that failed adds nothing.
pub fn merge_batch(acc: &mut HashMap<usize, usize>, start: usize, batch: Result<HashMap<usize, usize>, String>)
    requires
        batch matches Ok(m) ==> shift_fits(m@, start),
    ensures
        match batch {
            Ok(m) => final(acc)@ == old(acc)@.union_prefer_right(shifted_placements(m@, start)),
            Err(_) => final(acc)@ == old(acc)@,
        },
{
    match batch {
        Ok(m) => {
            let ghost a0 = acc@;
            let ghost mut done: Set<usize> = Set::empty();
            for kv in it: m.iter()
                invariant
                    shift_fits(m@, start),
                    done.subset_of(m@.dom()),
                    forall|i: int| 0 <= i < it.index() ==> done.contains(*#[trigger] it.seq()[i].0),
                    forall|k: usize| #[trigger] m@.contains_key(k) ==> done.contains(k) || exists|i: int|
                        it.index() <= i < it.seq().len() && *it.seq()[i].0 == k,
                    acc@ == a0.union_prefer_right(shifted_placements(m@.restrict(done), start)),
            {
                let (k, v) = kv;
                assert(m@.contains_key(*k) && m@[*k] == *v);
                let j = start + *k;
                let ghost before = acc@;
                acc.insert(j, *v);
                proof {
                    let nd = done.insert(*k);
                    assert(acc@ =~= a0.union_prefer_right(shifted_placements(m@.restrict(nd), start)));
                    done = nd;
                }
            }
            proof {
                assert(m@.restrict(done) =~= m@);
            }
        },
        Err(_) => {},
    }
}

// ---------------------------------------------------------------------
// The reply
// ---------------------------------------------------------------------

/// `s` with every leading `` ` `` removed (`trim_start_matches('`')`).
pub open spec fn trim_leading_ticks(s: Seq<char>) -> Seq<char>
    decreases s.len(),
{
    if s.len() > 0 && s[0] == '`' {
        trim_leading_ticks(s.drop_first())
    } else {
        s
    }
}

/// `s` with ```` ``` ```` removed from its end as often as it ends with it
/// (`trim_end_matches("```")`).
pub open spec fn trim_trailing_fences(s: Seq<char>) -> Seq<char>
    decreases s.len(),
{
    if ends_with(s, "```"@) && s.len() >= 3 {
        trim_trailing_fences(s.take(s.len() - 3))
    } else {
        s
    }
}

/// The JSON text of a reply: the reply trimmed; when it opens a code fence,
/// what follows the fence's first line (or the backticks, on a single
/// line), with closing fences and surrounding whitespace removed.
pub open spec fn reply_json(response: Seq<char>) -> Seq<char> {
    let t = trim(response);
    if starts_with(t, "```"@) {
        let after = match find_first(t, "\n"@) {
            Some(pos) => t.skip(pos + 1),
            None => trim_leading_ticks(t),
        };
        trim(trim_trailing_fences(trim_end(after)))
    } else {
        t
    }
}

/// What `serde_json::from_str::<serde_json::Value>` makes of a text, read
/// as an object: its entries in the map's iteration order, each value as
/// `Value::as_i64` gives it; `None` when the text is not JSON or not an
/// object.
pub uninterp spec fn json_object_entries(text: Seq<char>) -> Option<Seq<(Seq<char>, Option<int>)>>;

/// Entries as values.
pub open spec fn entry_views(v: Seq<(String, Option<i64>)>) -> Seq<(Seq<char>, Option<int>)> {
    v.map_values(
        |e: (String, Option<i64>)|
            (
                e.0@,
                match e.1 {
                    Some(x) => Some(x as int),
                    None => None,
                },
            ),
    )
}

/// Calls `serde_json::from_str::<serde_json::Value>`, then
/// `Value::as_object`, and lists the object's entries with each value's
/// `Value::as_i64`. The result is named by `json_object_entries`; nothing
/// more is claimed of it.
#[verifier::external_body]
fn json_int_entries(text: &str) -> (r: Option<Vec<(String, Option<i64>)>>)
    ensures
        match r {
            Some(v) => json_object_entries(text@) == Some(entry_views(v@)),
            None => json_object_entries(text@) is None,
        },
{
    let value: serde_json::Value = serde_json::from_str(text).ok()?;
    let obj = value.as_object()?;
    Some(obj.iter().map(|(k, v)| (k.clone(), v.as_i64())).collect())
}

/// The annotation label an entry key names: the number after `ANN_`.
pub open spec fn label_index(key: Seq<char>) -> Option<usize> {
    if starts_with(key, "ANN_"@) {
        parse_usize(key.skip(4))
    } else {
        None
    }
}

/// The placements the first `n` entries give, later entries overriding
/// earlier ones: label number to the line of the paragraph named, for
/// paragraph numbers that exist.
pub open spec fn placements_of(entries: Seq<(Seq<char>, Option<int>)>, lines: Seq<usize>, n: int) -> Map<usize, usize>
    decreases n,
{
    if n <= 0 {
        Map::empty()
    } else {
        let prev = placements_of(entries, lines, n - 1);
        let e = entries[n - 1];
        match (label_index(e.0), e.1) {
            (Some(a), Some(p)) => if 0 <= p < lines.len() {
                prev.insert(a, lines[p])
            } else {
                prev
            },
            _ => prev,
        }
    }
}

/// The paragraph line numbers.
pub open spec fn paragraph_lines_of(p: Seq<(String, usize)>) -> Seq<usize> {
    p.map_values(|e: (String, usize)| e.1)
}

/// What `parse_llm_placement_response` returns.
pub open spec fn placement_reply_spec(response: Seq<char>, lines: Seq<usize>) -> Map<usize, usize> {
    match json_object_entries(reply_json(response)) {
        Some(entries) => placements_of(entries, lines, entries.len() as int),
        None => Map::empty(),
    }
}

/// The JSON text of a reply, as `reply_json` says.
fn reply_json_exec(response: &str) -> (r: Vec<char>)
    ensures
        r@ == reply_json(response@),
{
    let rc = chars_of(response);
    let t = trim_chars(rc.as_slice());
    let fence = chars_of("```");
    proof {
        reveal_strlit("```");
        reveal_strlit("\n");
    }
    if !starts_with_chars(t.as_slice(), fence.as_slice()) {
        return t;
    }
    let nl = chars_of("\n");
    let after: Vec<char> = match find_chars(t.as_slice(), nl.as_slice()) {
        Some(pos) => {
            proof {
                crate::text::lemma_find_from(t@, nl@, 0);
                assert(nl@.len() == 1);
            }
            assert(pos < t.len());
            let a = slice_chars(t.as_slice(), pos + 1, t.len());
            assert(a@ =~= t@.skip(pos + 1));
            a
        },
        None => {
            let mut k: usize = 0;
            assert(t@.skip(0) =~= t@);
            while k < t.len() && t[k] == '`'
                invariant
                    k <= t@.len(),
                    trim_leading_ticks(t@.skip(k as int)) == trim_leading_ticks(t@),
                decreases t.len() - k,
            {
                assert(t@.skip(k as int).drop_first() =~= t@.skip(k + 1));
                k = k + 1;
            }
            let a = slice_chars(t.as_slice(), k, t.len());
            assert(a@ =~= t@.skip(k as int));
            a
        },
    };
    let mut e = trim_end_chars(after.as_slice());
    loop
        invariant
            fence@ == "```"@,
            trim_trailing_fences(e@) == trim_trailing_fences(trim_end(after@)),
        ensures
            trim_trailing_fences(e@) == trim_trailing_fences(trim_end(after@)),
            !(e@.len() >= 3 && ends_with(e@, "```"@)),
        decreases e.len(),
    {
        if e.len() >= 3 && ends_with_chars(e.as_slice(), fence.as_slice()) {
            let n = e.len() - 3;
            let cut = slice_chars(e.as_slice(), 0, n);
            assert(cut@ =~= e@.take(n as int));
            e = cut;
        } else {
            break;
        }
    }
    trim_chars(e.as_slice())
}

/// The placements a model's reply gives: for each `"ANN_<i>": <p>` entry of
/// its JSON object (inside a code fence or not) with `p` the number of an
/// existing paragraph, label `i` goes to that paragraph's line; a later
/// entry for the same label wins. Anything else is ignored, and a reply
/// that is not a JSON object gives no placements.
pub fn parse_llm_placement_response(response: &str, paragraphs: &[(String, usize)]) -> (r: HashMap<usize, usize>)
    ensures
        r@ == placement_reply_spec(response@, paragraph_lines_of(paragraphs@)),
        forall|a: usize| #[trigger] r@.contains_key(a) ==> exists|p: int|
            0 <= p < paragraphs@.len() && r@[a] == paragraphs@[p].1,
{
    let json = reply_json_exec(response);
    let js = string_of(json.as_slice());
    match json_int_entries(js.as_str()) {
        Some(entries) => placements_from_entries(&entries, paragraphs),
        None => HashMap::new(),
    }
}

/// The placements that the entries of a reply's JSON object give (each
/// key with its value as an `i64`, in the object's order), as
/// `placements_of` says.
pub fn placements_from_entries(entries: &Vec<(String, Option<i64>)>, paragraphs: &[(String, usize)]) -> (r:
    HashMap<usize, usize>)
    ensures
        r@ == placements_of(entry_views(entries@), paragraph_lines_of(paragraphs@), entries@.len() as int),
        forall|a: usize| #[trigger] r@.contains_key(a) ==> exists|p: int|
            0 <= p < paragraphs@.len() && r@[a] == paragraphs@[p].1,
{
    let ghost lines = paragraph_lines_of(paragraphs@);
    let mut result: HashMap<usize, usize> = HashMap::new();
    let ghost ev = entry_views(entries@);
    let prefix = chars_of("ANN_");
    proof {
        reveal_strlit("ANN_");
    }
    let mut i: usize = 0;
    while i < entries.len()
        invariant
            i <= entries@.len(),
            ev == entry_views(entries@),
            ev.len() == entries@.len(),
            prefix@ == "ANN_"@,
            prefix@.len() == 4,
            lines == paragraph_lines_of(paragraphs@),
            result@ == placements_of(ev, lines, i as int),
        decreases entries.len() - i,
    {
        let kc = chars_of(entries[i].0.as_str());
        let ann_idx: Option<usize> = if starts_with_chars(kc.as_slice(), prefix.as_slice()) {
            let rest = slice_chars(kc.as_slice(), 4, kc.len());
            assert(rest@ =~= kc@.skip(4));
            parse_usize_chars(rest.as_slice())
        } else {
            None
        };
        assert(ann_idx == label_index(ev[i as int].0));
        match (ann_idx, entries[i].1) {
            (Some(a), Some(p)) => {
                if p >= 0 && (p as u64) < (paragraphs.len() as u64) {
                    let line_idx = paragraphs[p as usize].1;
                    result.insert(a, line_idx);
                }
            },
            _ => {},
        }
        i = i + 1;
    }
    proof {
        lemma_placements_point_to_paragraphs(ev, lines, ev.len() as int);
    }
    result
}

// ---------------------------------------------------------------------
// The request and the HTTP reply
// ---------------------------------------------------------------------

/// Most tokens a placement reply may use.
pub const LLM_MAX_TOKENS: u64 = 500;

/// What `serde_json::to_string` writes for the chat-completion request
/// object `{"model": model, "messages": [{"role": "system", "content":
/// system}, {"role": "user", "content": user}], "max_tokens": max_tokens,
/// "temperature": 0}`.
pub uninterp spec fn chat_request_json(model: Seq<char>, system: Seq<char>, user: Seq<char>, max_tokens: u64) -> Seq<char>;

/// Builds the chat-completion request object as a `serde_json::Value`
/// (two messages, the system one first, then the user one; the
/// temperature is the integer 0) and writes it with `serde_json::to_string`,
/// which cannot fail on a `Value` (the error arm is never taken). The
/// result is named by `chat_request_json`.
#[verifier::external_body]
fn chat_request(model: &str, system: &str, user: &str, max_tokens: u64) -> (r: String)
    ensures
        r@ == chat_request_json(model@, system@, user@, max_tokens),
{
    let sys = Value::from_iter([("role", Value::from("system")), ("content", Value::from(system))]);
    let usr = Value::from_iter([("role", Value::from("user")), ("content", Value::from(user))]);
    let body = Value::from_iter([
        ("model", Value::from(model)),
        ("messages", Value::from(vec![sys, usr])),
        ("max_tokens", Value::from(max_tokens)),
        ("temperature", Value::from(0u64)),
    ]);
    serde_json::to_string(&body).unwrap_or_default()
}

/// The JSON body of the chat-completion request that asks `model` to place
/// the annotations described in `user_prompt`: the placement system prompt,
/// then the user prompt, at most `LLM_MAX_TOKENS` tokens, temperature 0.
pub fn llm_request_body(model: &str, user_prompt: &str) -> (r: String)
    ensures
        r@ == chat_request_json(model@, LLM_PLACEMENT_SYSTEM_PROMPT@, user_prompt@, LLM_MAX_TOKENS),
{
    chat_request(model, LLM_PLACEMENT_SYSTEM_PROMPT, user_prompt, LLM_MAX_TOKENS)
}

/// What `serde_json::from_str::<serde_json::Value>` and then
/// `value["choices"][0]["message"]["content"].as_str()` give for the body of
/// a chat-completion reply: `None` when the body is not JSON, `Some(None)`
/// when there is no string at that place, the content otherwise.
pub uninterp spec fn json_reply_content(body: Seq<char>) -> Option<Option<Seq<char>>>;

/// The view of a reply's content.
pub open spec fn content_view(r: Option<Option<String>>) -> Option<Option<Seq<char>>> {
    match r {
        Some(Some(c)) => Some(Some(c@)),
        Some(None) => Some(None),
        None => None,
    }
}

/// Calls `serde_json::from_str::<serde_json::Value>` on a reply body, then
/// indexes the value by `["choices"][0]["message"]["content"]` and calls
/// `Value::as_str`; a parse error gives `None`. The result is named by
/// `json_reply_content`.
#[verifier::external_body]
fn reply_content(body: &str) -> (r: Option<Option<String>>)
    ensures
        content_view(r) == json_reply_content(body@),
{
    match serde_json::from_str::<serde_json::Value>(body) {
        Ok(v) => Some(v["choices"][0]["message"]["content"].as_str().map(|s| s.to_string())),
        Err(_) => None,
    }
}

/// The error for a reply whose body could not be read as JSON: the HTTP
/// client's decoding error for the reply's URL, after the
/// "Failed to parse LLM response: " prefix.
pub open spec fn decode_error_spec(url: Seq<char>) -> Seq<char> {
    "Failed to parse LLM response: error decoding response body for url ("@ + url + ")"@
}

/// The error message for a reply from `url` whose body is not JSON.
pub fn decode_error_message(url: &str) -> (r: String)
    ensures
        r@ == decode_error_spec(url@),
{
    let mut v = chars_of("Failed to parse LLM response: error decoding response body for url (");
    extend_str(&mut v, url);
    extend_str(&mut v, ")");
    string_of(v.as_slice())
}

/// What a reply's content gives: the placements it names, or the error
/// for a body that is not JSON or has no content.
pub open spec fn reply_placements_spec(content: Option<Option<Seq<char>>>, url: Seq<char>, lines: Seq<usize>) -> Result<
    Map<usize, usize>,
    Seq<char>,
> {
    match content {
        None => Err(decode_error_spec(url)),
        Some(None) => Err("No content in LLM response"@),
        Some(Some(c)) => Ok(placement_reply_spec(c, lines)),
    }
}

/// The result as values.
pub open spec fn placements_result_view(r: Result<HashMap<usize, usize>, String>) -> Result<
    Map<usize, usize>,
    Seq<char>,
> {
    match r {
        Ok(m) => Ok(m@),
        Err(e) => Err(e@),
    }
}

/// The placements, or the error, that the content of a reply from `url`
/// gives.
pub fn reply_placements(content: Option<Option<String>>, url: &str, paragraphs: &[(String, usize)]) -> (r: Result<
    HashMap<usize, usize>,
    String,
>)
    ensures
        placements_result_view(r) == reply_placements_spec(
            content_view(content),
            url@,
            paragraph_lines_of(paragraphs@),
        ),
{
    match content {
        None => Err(decode_error_message(url)),
        Some(None) => Err(crate::text::string_from("No content in LLM response")),
        Some(Some(c)) => Ok(parse_llm_placement_response(c.as_str(), paragraphs)),
    }
}

/// The placements a chat-completion reply body from `url` gives: an error
/// when the body is not JSON ("Failed to parse LLM response: error decoding
/// response body for url (<url>)") or carries no content ("No content in
/// LLM response"), the placements of the content otherwise.
pub fn llm_reply_placements(body: &str, url: &str, paragraphs: &[(String, usize)]) -> (r: Result<
    HashMap<usize, usize>,
    String,
>)
    ensures
        placements_result_view(r) == reply_placements_spec(
            json_reply_content(body@),
            url@,
            paragraph_lines_of(paragraphs@),
        ),
{
    reply_placements(reply_content(body), url, paragraphs)
}

/// Every placement names the line of an existing paragraph.
proof fn lemma_placements_point_to_paragraphs(entries: Seq<(Seq<char>, Option<int>)>, lines: Seq<usize>, n: int)
    ensures
        forall|a: usize| #[trigger] placements_of(entries, lines, n).contains_key(a) ==> exists|p: int|
            0 <= p < lines.len() && placements_of(entries, lines, n)[a] == lines[p],
    decreases n,
{
    if n > 0 {
        lemma_placements_point_to_paragraphs(entries, lines, n - 1);
        let prev = placements_of(entries, lines, n - 1);
        let cur = placements_of(entries, lines, n);
        let e = entries[n - 1];
        assert forall|a: usize| #[trigger] cur.contains_key(a) implies exists|p: int|
            0 <= p < lines.len() && cur[a] == lines[p] by {
            match (label_index(e.0), e.1) {
                (Some(a0), Some(p0)) => {
                    if 0 <= p0 < lines.len() && a == a0 {
                        assert(cur[a] == lines[p0]);
                    } else {
                        assert(prev.contains_key(a));
                        let q = choose|q: int| 0 <= q < lines.len() && prev[a] == lines[q];
                        assert(cur[a] == lines[q]);
                    }
                },
                _ => {
                    assert(prev.contains_key(a));
                },
            }
        }
    }
}

} // verus!
