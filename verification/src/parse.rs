//! The templated-path parser and substitution engine.
//!
//! A pattern such as `test/{val}/blah` is parsed once into a
//! [`SubstitutingUrl`]: an ordered sequence of literal and variable segments.
//! Substitution then replaces every variable with a caller-supplied value,
//! by name or by position.
//!
//! Grammar, scanned left to right in a single pass: `\` escapes the
//! character after it (so `\{` is a literal brace that opens no variable,
//! and a trailing lone `\` stands for itself); `{` opens a variable tag
//! whose name runs verbatim to the next `}`; every other character is
//! literal text. A tag with no name is an error, as is a `{` that is never
//! closed.

use vstd::prelude::*;

verus! {

// ---------------------------------------------------------------------------
// Errors

/// Why a pattern failed to parse.
#[derive(Debug, PartialEq, Eq, Structural)]
pub enum ParseError {
    /// The pattern contains `{}`: a variable tag with no name.
    EmptyName,
    /// A `{` with no matching `}` before the end of the pattern.
    UnterminatedVariableTag,
}

/// Why a substitution over a parsed template failed.
#[derive(Debug)]
pub enum SubstitutionError {
    /// Named substitution met a variable whose name the values lack. `url`
    /// is the canonical representation of the whole template, and `position`
    /// the zero-based ordinal of the failing variable among the template's
    /// variables.
    MissingParameter { url: String, name: String, position: usize },
    /// Positional substitution was handed fewer values than the template
    /// has variables.
    WrongNumberVariables { expected: usize, found: usize },
}

// ---------------------------------------------------------------------------
// The mathematical model of a template

/// The shape of one template segment: literal text emitted verbatim, or a
/// named placeholder to be replaced by a caller-supplied value.
#[verifier::ext_equal]
pub enum Seg {
    Plain(Seq<char>),
    Variable(Seq<char>),
}

/// The first index at which `c` occurs in `s`, if any.
pub open spec fn find_char(s: Seq<char>, c: char) -> Option<int>
    decreases s.len(),
{
    if s.len() == 0 {
        None
    } else if s[0] == c {
        Some(0int)
    } else {
        match find_char(s.skip(1), c) {
            None => None,
            Some(i) => Some(i + 1),
        }
    }
}

/// `find_char` returns the first occurrence: the index it yields holds `c`,
/// everything before it does not, and `None` means `c` is absent.
pub proof fn lemma_find_char(s: Seq<char>, c: char)
    ensures
        match find_char(s, c) {
            None => forall|k: int| 0 <= k < s.len() ==> s[k] != c,
            Some(i) => 0 <= i < s.len() && s[i] == c && (forall|k: int| 0 <= k < i ==> s[k] != c),
        },
    decreases s.len(),
{
    if s.len() > 0 && s[0] != c {
        lemma_find_char(s.skip(1), c);
        match find_char(s.skip(1), c) {
            None => {
                assert forall|k: int| 0 <= k < s.len() implies s[k] != c by {
                    if k > 0 {
                        assert(s.skip(1)[k - 1] == s[k]);
                    }
                }
            },
            Some(i) => {
                assert(s.skip(1)[i] == s[i + 1]);
                assert forall|k: int| 0 <= k < i + 1 implies s[k] != c by {
                    if k > 0 {
                        assert(s.skip(1)[k - 1] == s[k]);
                    }
                }
            },
        }
    }
}

/// If `c` sits at `i` and nowhere earlier, `find_char` finds exactly `i`.
pub proof fn lemma_find_char_exact(s: Seq<char>, c: char, i: int)
    requires
        0 <= i < s.len(),
        s[i] == c,
        forall|k: int| 0 <= k < i ==> s[k] != c,
    ensures
        find_char(s, c) == Some(i),
{
    lemma_find_char(s, c);
    match find_char(s, c) {
        None => {
            assert(false);
        },
        Some(j) => {
            if j < i {
                assert(s[j] != c);
            }
            if j > i {
                assert(s[i] != c);
            }
        },
    }
}

/// If `c` occurs nowhere in `s`, `find_char` finds nothing.
pub proof fn lemma_find_char_none(s: Seq<char>, c: char)
    requires
        forall|k: int| 0 <= k < s.len() ==> s[k] != c,
    ensures
        find_char(s, c) is None,
{
    lemma_find_char(s, c);
    if let Some(i) = find_char(s, c) {
        assert(s[i] != c);
    }
}

/// Prepend a pending literal run to a segment sequence, merging it into a
/// leading literal segment when there is one, and dropping it when empty.
pub open spec fn merge_run(run: Seq<char>, rest: Seq<Seg>) -> Seq<Seg> {
    if run.len() == 0 {
        rest
    } else if rest.len() > 0 && rest[0] is Plain {
        seq![Seg::Plain(run + rest[0]->Plain_0)] + rest.skip(1)
    } else {
        seq![Seg::Plain(run)] + rest
    }
}

/// Prepend one literal character to a segment sequence.
pub open spec fn cons_plain(c: char, rest: Seq<Seg>) -> Seq<Seg> {
    merge_run(seq![c], rest)
}

/// What parsing a pattern yields: its segments, with adjacent literal
/// characters gathered into maximal literal segments, or the first error.
pub open spec fn parse_segments(p: Seq<char>) -> Result<Seq<Seg>, ParseError>
    decreases p.len(),
    via parse_segments_decreases
{
    if p.len() == 0 {
        Ok(Seq::empty())
    } else if p[0] == '{' {
        match find_char(p.skip(1), '}') {
            None => Err(ParseError::UnterminatedVariableTag),
            Some(j) => {
                if j == 0 {
                    Err(ParseError::EmptyName)
                } else {
                    match parse_segments(p.skip(j + 2)) {
                        Ok(rest) => Ok(seq![Seg::Variable(p.subrange(1, j + 1))] + rest),
                        Err(e) => Err(e),
                    }
                }
            },
        }
    } else if p[0] == '\\' && p.len() >= 2 {
        match parse_segments(p.skip(2)) {
            Ok(rest) => Ok(cons_plain(p[1], rest)),
            Err(e) => Err(e),
        }
    } else {
        match parse_segments(p.skip(1)) {
            Ok(rest) => Ok(cons_plain(p[0], rest)),
            Err(e) => Err(e),
        }
    }
}

#[via_fn]
proof fn parse_segments_decreases(p: Seq<char>) {
    if p.len() > 0 && p[0] == '{' {
        lemma_find_char(p.skip(1), '}');
    }
}

/// A single segment in canonical shape: literal segments are nonempty, and
/// a variable's name is nonempty and runs to the first closing brace, so it
/// never contains one.
pub open spec fn wf_seg(s: Seg) -> bool {
    match s {
        Seg::Plain(t) => t.len() > 0,
        Seg::Variable(n) => n.len() > 0 && find_char(n, '}') is None,
    }
}

/// A template in canonical shape: every segment is well formed and no two
/// literal segments stand next to each other.
pub open spec fn wf_template(segs: Seq<Seg>) -> bool {
    &&& forall|i: int| 0 <= i < segs.len() ==> wf_seg(#[trigger] segs[i])
    &&& forall|i: int|
        0 <= i && i + 1 < segs.len() ==> !((#[trigger] segs[i]) is Plain && segs[i + 1] is Plain)
}

/// Merging a literal run into a well-formed template keeps it well formed.
proof fn lemma_merge_run_wf(run: Seq<char>, rest: Seq<Seg>)
    requires
        wf_template(rest),
    ensures
        wf_template(merge_run(run, rest)),
{
    let out = merge_run(run, rest);
    if run.len() == 0 {
    } else if rest.len() > 0 && rest[0] is Plain {
        assert(out.len() == rest.len());
        assert forall|i: int| 1 <= i < out.len() implies out[i] == rest[i] by {
            assert(out[i] == rest.skip(1)[i - 1]);
            assert(rest.skip(1)[i - 1] == rest[i]);
        }
        assert forall|i: int| 0 <= i < out.len() implies wf_seg(#[trigger] out[i]) by {
            if i > 0 {
                assert(out[i] == rest[i]);
                assert(wf_seg(rest[i]));
            }
        }
        assert forall|i: int|
            0 <= i && i + 1 < out.len() implies !((#[trigger] out[i]) is Plain
            && out[i + 1] is Plain) by {
            assert(out[i + 1] == rest[i + 1]);
            if i > 0 {
                assert(out[i] == rest[i]);
            } else {
                assert(!(rest[0] is Plain && rest[1] is Plain));
            }
        }
    } else {
        assert(out.len() == rest.len() + 1);
        assert forall|i: int| 1 <= i < out.len() implies out[i] == rest[i - 1] by {}
        assert forall|i: int| 0 <= i < out.len() implies wf_seg(#[trigger] out[i]) by {
            if i > 0 {
                assert(out[i] == rest[i - 1]);
                assert(wf_seg(rest[i - 1]));
            }
        }
        assert forall|i: int|
            0 <= i && i + 1 < out.len() implies !((#[trigger] out[i]) is Plain
            && out[i + 1] is Plain) by {
            if i > 0 {
                assert(out[i] == rest[i - 1]);
                assert(out[i + 1] == rest[i]);
                assert(!(rest[i - 1] is Plain && rest[i] is Plain));
            } else {
                assert(out[1] == rest[0]);
                assert(!(rest[0] is Plain));
            }
        }
    }
}

/// Whatever parses parses to a well-formed template.
pub proof fn lemma_parse_wf(p: Seq<char>)
    ensures
        parse_segments(p) matches Ok(t) ==> wf_template(t),
    decreases p.len(),
{
    if p.len() == 0 {
    } else if p[0] == '{' {
        lemma_find_char(p.skip(1), '}');
        match find_char(p.skip(1), '}') {
            None => {},
            Some(j) => {
                if j > 0 {
                    lemma_parse_wf(p.skip(j + 2));
                    match parse_segments(p.skip(j + 2)) {
                        Ok(rest) => {
                            let name = p.subrange(1, j + 1);
                            assert forall|k: int| 0 <= k < name.len() implies name[k] != '}' by {
                                assert(name[k] == p.skip(1)[k]);
                            }
                            lemma_find_char_none(name, '}');
                            let out = parse_segments(p).unwrap();
                            assert(out == seq![Seg::Variable(name)] + rest);
                            assert forall|i: int| 0 <= i < out.len() implies wf_seg(
                                #[trigger] out[i],
                            ) by {
                                if i > 0 {
                                    assert(out[i] == rest[i - 1]);
                                }
                            }
                            assert forall|i: int|
                                0 <= i && i + 1 < out.len() implies !((#[trigger] out[i]) is Plain
                                && out[i + 1] is Plain) by {
                                if i > 0 {
                                    assert(out[i] == rest[i - 1]);
                                    assert(out[i + 1] == rest[i]);
                                }
                            }
                        },
                        Err(_) => {},
                    }
                }
            },
        }
    } else if p[0] == '\\' && p.len() >= 2 {
        lemma_parse_wf(p.skip(2));
        match parse_segments(p.skip(2)) {
            Ok(rest) => {
                lemma_merge_run_wf(seq![p[1]], rest);
            },
            Err(_) => {},
        }
    } else {
        lemma_parse_wf(p.skip(1));
        match parse_segments(p.skip(1)) {
            Ok(rest) => {
                lemma_merge_run_wf(seq![p[0]], rest);
            },
            Err(_) => {},
        }
    }
}

/// Growing the pending literal run by one character commutes with
/// prepending that character to the remainder's parse.
proof fn lemma_merge_run_push(run: Seq<char>, c: char, rest: Seq<Seg>)
    ensures
        merge_run(run.push(c), rest) == merge_run(run, cons_plain(c, rest)),
{
    if rest.len() > 0 && rest[0] is Plain {
        let t = rest[0]->Plain_0;
        if run.len() == 0 {
            assert(run.push(c) =~= seq![c]);
            assert(merge_run(run.push(c), rest) =~~= merge_run(run, cons_plain(c, rest)));
        } else {
            assert(cons_plain(c, rest) == seq![Seg::Plain(seq![c] + t)] + rest.skip(1));
            assert((seq![Seg::Plain(seq![c] + t)] + rest.skip(1))[0] == Seg::Plain(seq![c] + t));
            assert(run + (seq![c] + t) =~= run.push(c) + t);
            assert((seq![Seg::Plain(seq![c] + t)] + rest.skip(1)).skip(1) =~= rest.skip(1));
            assert(merge_run(run.push(c), rest) =~~= merge_run(run, cons_plain(c, rest)));
        }
    } else {
        assert(cons_plain(c, rest) == seq![Seg::Plain(seq![c])] + rest);
        assert((seq![Seg::Plain(seq![c])] + rest)[0] == Seg::Plain(seq![c]));
        if run.len() == 0 {
            assert(run.push(c) =~= seq![c]);
            assert(merge_run(run.push(c), rest) =~~= merge_run(run, cons_plain(c, rest)));
        } else {
            assert(run + seq![c] =~= run.push(c));
            assert((seq![Seg::Plain(seq![c])] + rest).skip(1) =~= rest);
            assert(merge_run(run.push(c), rest) =~~= merge_run(run, cons_plain(c, rest)));
        }
    }
}

// ---------------------------------------------------------------------------
// Substitution, modelled

/// The names of a template's variables, in the order they appear.
pub open spec fn var_names(segs: Seq<Seg>) -> Seq<Seq<char>>
    decreases segs.len(),
{
    if segs.len() == 0 {
        Seq::empty()
    } else {
        match segs[0] {
            Seg::Plain(_) => var_names(segs.skip(1)),
            Seg::Variable(n) => seq![n] + var_names(segs.skip(1)),
        }
    }
}

/// The name-to-value map that a pair list stands for; the first entry with
/// a given name wins.
pub open spec fn pairs_to_map(pairs: Seq<(Seq<char>, Seq<char>)>) -> Map<Seq<char>, Seq<char>>
    decreases pairs.len(),
{
    if pairs.len() == 0 {
        Map::empty()
    } else {
        pairs_to_map(pairs.skip(1)).insert(pairs[0].0, pairs[0].1)
    }
}

/// What one segment contributes to named substitution.
pub open spec fn seg_sub_name(s: Seg, m: Map<Seq<char>, Seq<char>>) -> Seq<char> {
    match s {
        Seg::Plain(t) => t,
        Seg::Variable(n) => m[n],
    }
}

/// The string named substitution produces when every variable is present.
pub open spec fn render_name(segs: Seq<Seg>, m: Map<Seq<char>, Seq<char>>) -> Seq<char>
    decreases segs.len(),
{
    if segs.len() == 0 {
        Seq::empty()
    } else {
        seg_sub_name(segs[0], m) + render_name(segs.skip(1), m)
    }
}

/// The position of the first name among `names` that `m` lacks, if any.
pub open spec fn first_absent(names: Seq<Seq<char>>, m: Map<Seq<char>, Seq<char>>) -> Option<int>
    decreases names.len(),
{
    if names.len() == 0 {
        None
    } else if !m.contains_key(names[0]) {
        Some(0int)
    } else {
        match first_absent(names.skip(1), m) {
            None => None,
            Some(i) => Some(i + 1),
        }
    }
}

/// The string positional substitution produces when enough values are
/// given: the variable at ordinal `k`, counting template variables from the
/// left, takes the value `k` places from the *end* of `vals`. Values are
/// deliberately consumed from the back; earlier entries beyond the
/// template's variable count are never consumed.
pub open spec fn render_index(segs: Seq<Seg>, vals: Seq<Seq<char>>, k: int) -> Seq<char>
    decreases segs.len(),
{
    if segs.len() == 0 {
        Seq::empty()
    } else {
        match segs[0] {
            Seg::Plain(t) => t + render_index(segs.skip(1), vals, k),
            Seg::Variable(_) => vals[vals.len() - 1 - k] + render_index(segs.skip(1), vals, k + 1),
        }
    }
}

/// Literal text re-escaped for the canonical representation: `{` and `\`
/// each get a backslash in front, so the text re-parses as literal text.
pub open spec fn escape_plain(t: Seq<char>) -> Seq<char>
    decreases t.len(),
{
    if t.len() == 0 {
        Seq::empty()
    } else if t[0] == '{' || t[0] == '\\' {
        seq!['\\', t[0]] + escape_plain(t.skip(1))
    } else {
        seq![t[0]] + escape_plain(t.skip(1))
    }
}

/// One segment's canonical representation.
pub open spec fn seg_repr(s: Seg) -> Seq<char> {
    match s {
        Seg::Plain(t) => escape_plain(t),
        Seg::Variable(n) => seq!['{'] + n + seq!['}'],
    }
}

/// A template's canonical representation: its segments re-serialized back
/// into pattern syntax.
pub open spec fn template_repr(segs: Seq<Seg>) -> Seq<char>
    decreases segs.len(),
{
    if segs.len() == 0 {
        Seq::empty()
    } else {
        seg_repr(segs[0]) + template_repr(segs.skip(1))
    }
}

// ---------------------------------------------------------------------------
// How the substitution model distributes over concatenation

/// Variable names distribute over template concatenation.
pub proof fn lemma_var_names_concat(a: Seq<Seg>, b: Seq<Seg>)
    ensures
        var_names(a + b) == var_names(a) + var_names(b),
    decreases a.len(),
{
    if a.len() == 0 {
        assert(a + b =~= b);
        assert(var_names(a) + var_names(b) =~= var_names(b));
    } else {
        assert((a + b)[0] == a[0]);
        assert((a + b).skip(1) =~= a.skip(1) + b);
        lemma_var_names_concat(a.skip(1), b);
        match a[0] {
            Seg::Plain(_) => {},
            Seg::Variable(n) => {
                assert(seq![n] + (var_names(a.skip(1)) + var_names(b)) =~= (seq![n] + var_names(
                    a.skip(1),
                )) + var_names(b));
            },
        }
    }
}

/// Named rendering distributes over template concatenation.
pub proof fn lemma_render_name_concat(a: Seq<Seg>, b: Seq<Seg>, m: Map<Seq<char>, Seq<char>>)
    ensures
        render_name(a + b, m) == render_name(a, m) + render_name(b, m),
    decreases a.len(),
{
    if a.len() == 0 {
        assert(a + b =~= b);
        assert(render_name(a, m) + render_name(b, m) =~= render_name(b, m));
    } else {
        assert((a + b)[0] == a[0]);
        assert((a + b).skip(1) =~= a.skip(1) + b);
        lemma_render_name_concat(a.skip(1), b, m);
        assert(seg_sub_name(a[0], m) + (render_name(a.skip(1), m) + render_name(b, m)) =~= (
        seg_sub_name(a[0], m) + render_name(a.skip(1), m)) + render_name(b, m));
    }
}

/// Looking for the first absent name can be split at a concatenation whose
/// first half is fully present.
pub proof fn lemma_first_absent_concat(
    a: Seq<Seq<char>>,
    b: Seq<Seq<char>>,
    m: Map<Seq<char>, Seq<char>>,
)
    requires
        first_absent(a, m) is None,
    ensures
        first_absent(a + b, m) == match first_absent(b, m) {
            None => None::<int>,
            Some(i) => Some(i + a.len()),
        },
    decreases a.len(),
{
    if a.len() == 0 {
        assert(a + b =~= b);
    } else {
        assert((a + b)[0] == a[0]);
        assert((a + b).skip(1) =~= a.skip(1) + b);
        lemma_first_absent_concat(a.skip(1), b, m);
    }
}

/// Positional rendering distributes over template concatenation, with the
/// ordinal advanced by the variables of the first half.
pub proof fn lemma_render_index_concat(a: Seq<Seg>, b: Seq<Seg>, vals: Seq<Seq<char>>, k: int)
    ensures
        render_index(a + b, vals, k) == render_index(a, vals, k) + render_index(
            b,
            vals,
            k + var_names(a).len(),
        ),
    decreases a.len(),
{
    if a.len() == 0 {
        assert(a + b =~= b);
        assert(render_index(a, vals, k) + render_index(b, vals, k) =~= render_index(b, vals, k));
    } else {
        assert((a + b)[0] == a[0]);
        assert((a + b).skip(1) =~= a.skip(1) + b);
        match a[0] {
            Seg::Plain(t) => {
                lemma_render_index_concat(a.skip(1), b, vals, k);
                assert(t + (render_index(a.skip(1), vals, k) + render_index(
                    b,
                    vals,
                    k + var_names(a.skip(1)).len(),
                )) =~= (t + render_index(a.skip(1), vals, k)) + render_index(
                    b,
                    vals,
                    k + var_names(a).len(),
                ));
            },
            Seg::Variable(n) => {
                lemma_render_index_concat(a.skip(1), b, vals, k + 1);
                assert(var_names(a) == seq![n] + var_names(a.skip(1)));
                let v = vals[vals.len() - 1 - k];
                assert(v + (render_index(a.skip(1), vals, k + 1) + render_index(
                    b,
                    vals,
                    k + 1 + var_names(a.skip(1)).len(),
                )) =~= (v + render_index(a.skip(1), vals, k + 1)) + render_index(
                    b,
                    vals,
                    k + var_names(a).len(),
                ));
            },
        }
    }
}

/// The canonical representation distributes over template concatenation.
pub proof fn lemma_template_repr_concat(a: Seq<Seg>, b: Seq<Seg>)
    ensures
        template_repr(a + b) == template_repr(a) + template_repr(b),
    decreases a.len(),
{
    if a.len() == 0 {
        assert(a + b =~= b);
        assert(template_repr(a) + template_repr(b) =~= template_repr(b));
    } else {
        assert((a + b)[0] == a[0]);
        assert((a + b).skip(1) =~= a.skip(1) + b);
        lemma_template_repr_concat(a.skip(1), b);
        assert(seg_repr(a[0]) + (template_repr(a.skip(1)) + template_repr(b)) =~= (seg_repr(a[0])
            + template_repr(a.skip(1))) + template_repr(b));
    }
}

/// Escaping distributes over concatenation of literal text.
pub proof fn lemma_escape_plain_concat(a: Seq<char>, b: Seq<char>)
    ensures
        escape_plain(a + b) == escape_plain(a) + escape_plain(b),
    decreases a.len(),
{
    if a.len() == 0 {
        assert(a + b =~= b);
        assert(escape_plain(a) + escape_plain(b) =~= escape_plain(b));
    } else {
        assert((a + b)[0] == a[0]);
        assert((a + b).skip(1) =~= a.skip(1) + b);
        lemma_escape_plain_concat(a.skip(1), b);
        if a[0] == '{' || a[0] == '\\' {
            assert(seq!['\\', a[0]] + (escape_plain(a.skip(1)) + escape_plain(b)) =~= (seq![
                '\\',
                a[0],
            ] + escape_plain(a.skip(1))) + escape_plain(b));
        } else {
            assert(seq![a[0]] + (escape_plain(a.skip(1)) + escape_plain(b)) =~= (seq![a[0]]
                + escape_plain(a.skip(1))) + escape_plain(b));
        }
    }
}

/// The first pair with a given name decides that name's value.
pub proof fn lemma_pairs_to_map_first(pairs: Seq<(Seq<char>, Seq<char>)>, i: int)
    requires
        0 <= i < pairs.len(),
        forall|k: int| 0 <= k < i ==> (#[trigger] pairs[k]).0 != pairs[i].0,
    ensures
        pairs_to_map(pairs).contains_key(pairs[i].0),
        pairs_to_map(pairs)[pairs[i].0] == pairs[i].1,
    decreases i,
{
    if i > 0 {
        assert(pairs[0].0 != pairs[i].0);
        assert(pairs.skip(1)[i - 1] == pairs[i]);
        assert forall|k: int| 0 <= k < i - 1 implies (#[trigger] pairs.skip(1)[k]).0 != pairs.skip(
            1,
        )[i - 1].0 by {
            assert(pairs.skip(1)[k] == pairs[k + 1]);
        }
        lemma_pairs_to_map_first(pairs.skip(1), i - 1);
    }
}

/// A name no pair carries is not in the map.
pub proof fn lemma_pairs_to_map_absent(pairs: Seq<(Seq<char>, Seq<char>)>, key: Seq<char>)
    requires
        forall|k: int| 0 <= k < pairs.len() ==> (#[trigger] pairs[k]).0 != key,
    ensures
        !pairs_to_map(pairs).contains_key(key),
    decreases pairs.len(),
{
    if pairs.len() > 0 {
        assert forall|k: int| 0 <= k < pairs.skip(1).len() implies (#[trigger] pairs.skip(
            1,
        )[k]).0 != key by {
            assert(pairs.skip(1)[k] == pairs[k + 1]);
        }
        lemma_pairs_to_map_absent(pairs.skip(1), key);
    }
}

/// What each piece of the substitution model makes of a one-segment
/// template.
proof fn lemma_seg_singleton(s: Seg, m: Map<Seq<char>, Seq<char>>, vals: Seq<Seq<char>>, k: int)
    ensures
        var_names(seq![s]) == (match s {
            Seg::Plain(_) => Seq::<Seq<char>>::empty(),
            Seg::Variable(n) => seq![n],
        }),
        render_name(seq![s], m) == seg_sub_name(s, m),
        render_index(seq![s], vals, k) == (match s {
            Seg::Plain(t) => t,
            Seg::Variable(_) => vals[vals.len() - 1 - k],
        }),
        template_repr(seq![s]) == seg_repr(s),
        first_absent(var_names(seq![s]), m) == (match s {
            Seg::Plain(_) => None::<int>,
            Seg::Variable(n) => if m.contains_key(n) {
                None::<int>
            } else {
                Some(0int)
            },
        }),
{
    let single = seq![s];
    assert(single.skip(1) =~= Seq::<Seg>::empty());
    assert(var_names(Seq::<Seg>::empty()) == Seq::<Seq<char>>::empty());
    assert(render_name(Seq::<Seg>::empty(), m) == Seq::<char>::empty());
    assert(render_index(Seq::<Seg>::empty(), vals, k) == Seq::<char>::empty());
    assert(render_index(Seq::<Seg>::empty(), vals, k + 1) == Seq::<char>::empty());
    assert(template_repr(Seq::<Seg>::empty()) == Seq::<char>::empty());
    assert(first_absent(Seq::<Seq<char>>::empty(), m) == None::<int>);
    match s {
        Seg::Plain(t) => {
            assert(var_names(single) =~= Seq::<Seq<char>>::empty());
            assert(render_name(single, m) =~= t);
            assert(render_index(single, vals, k) =~= t);
        },
        Seg::Variable(n) => {
            assert(var_names(single) =~= seq![n]);
            assert(render_name(single, m) =~= m[n]);
            assert(render_index(single, vals, k) =~= vals[vals.len() - 1 - k]);
            assert(seq![n].skip(1) =~= Seq::<Seq<char>>::empty());
            assert(seq![n][0] == n);
        },
    }
    assert(template_repr(single) =~= seg_repr(s));
}

/// What escaping makes of a single character.
proof fn lemma_escape_single(c: char)
    ensures
        escape_plain(seq![c]) == (if c == '{' || c == '\\' {
            seq!['\\', c]
        } else {
            seq![c]
        }),
{
    assert(seq![c].skip(1) =~= Seq::<char>::empty());
    assert(escape_plain(Seq::<char>::empty()) == Seq::<char>::empty());
    if c == '{' || c == '\\' {
        assert(escape_plain(seq![c]) =~= seq!['\\', c]);
    } else {
        assert(escape_plain(seq![c]) =~= seq![c]);
    }
}

// ---------------------------------------------------------------------------
// The template itself

#[derive(Debug)]
enum SubstitutingSegment {
    Plain(String),
    Variable(String),
}

impl View for SubstitutingSegment {
    type V = Seg;

    closed spec fn view(&self) -> Seg {
        match self {
            SubstitutingSegment::Plain(t) => Seg::Plain(t@),
            SubstitutingSegment::Variable(n) => Seg::Variable(n@),
        }
    }
}

spec fn segs_view(v: Seq<SubstitutingSegment>) -> Seq<Seg> {
    v.map_values(|s: SubstitutingSegment| s@)
}

/// A parsed path template: an ordered sequence of literal and variable
/// segments, immutable after parsing.
#[derive(Debug)]
pub struct SubstitutingUrl {
    segments: Vec<SubstitutingSegment>,
}

impl View for SubstitutingUrl {
    type V = Seq<Seg>;

    closed spec fn view(&self) -> Seq<Seg> {
        segs_view(self.segments@)
    }
}

/// Relies on `String::push`: appends exactly the one character.
#[verifier::external_body]
fn push_char(s: &mut String, c: char)
    ensures
        final(s)@ == old(s)@.push(c),
{
    s.push(c);
}

impl SubstitutingUrl {
    /// Parse a pattern into a template. The result is exactly what the
    /// grammar spec [`parse_segments`] assigns to the pattern, and on
    /// success it is in canonical shape.
    pub fn parse(pattern: &str) -> (r: Result<SubstitutingUrl, ParseError>)
        ensures
            match r {
                Ok(t) => parse_segments(pattern@) == Ok::<Seq<Seg>, ParseError>(t@)
                    && wf_template(t@),
                Err(e) => parse_segments(pattern@) == Err::<Seq<Seg>, ParseError>(e),
            },
    {
        let n = pattern.unicode_len();
        let mut segments: Vec<SubstitutingSegment> = Vec::new();
        let mut run = String::new();
        let mut i: usize = 0;
        proof {
            assert(pattern@.skip(0) =~= pattern@);
            assert(segs_view(segments@) =~= Seq::<Seg>::empty());
            match parse_segments(pattern@) {
                Ok(rest) => {
                    assert(Seq::<Seg>::empty() + rest =~= rest);
                },
                Err(_) => {},
            }
        }
        while i < n
            invariant
                n as nat == pattern@.len(),
                i <= n,
                match parse_segments(pattern@.skip(i as int)) {
                    Ok(rest) => parse_segments(pattern@) == Ok::<Seq<Seg>, ParseError>(
                        segs_view(segments@) + merge_run(run@, rest),
                    ),
                    Err(e) => parse_segments(pattern@) == Err::<Seq<Seg>, ParseError>(e),
                },
            decreases n - i,
        {
            let ghost p = pattern@;
            let ghost pi = p.skip(i as int);
            proof {
                assert(pi[0] == p[i as int]);
            }
            let c = pattern.get_char(i);
            if c == '{' {
                let mut j: usize = i + 1;
                while j < n && pattern.get_char(j) != '}'
                    invariant
                        n as nat == pattern@.len(),
                        i + 1 <= j <= n,
                        forall|k: int| i + 1 <= k < j ==> pattern@[k] != '}',
                    decreases n - j,
                {
                    j += 1;
                }
                proof {
                    assert(pi.skip(1) =~= p.skip(i + 1));
                }
                if j == n {
                    proof {
                        assert forall|k: int| 0 <= k < pi.skip(1).len() implies pi.skip(1)[k]
                            != '}' by {
                            assert(pi.skip(1)[k] == p[i + 1 + k]);
                        }
                        lemma_find_char_none(pi.skip(1), '}');
                        assert(parse_segments(pi) == Err::<Seq<Seg>, ParseError>(
                            ParseError::UnterminatedVariableTag,
                        ));
                    }
                    return Err(ParseError::UnterminatedVariableTag);
                }
                proof {
                    assert(p[j as int] == '}');
                    assert(pi.skip(1)[j - i - 1] == p[j as int]);
                    assert forall|k: int| 0 <= k < j - i - 1 implies pi.skip(1)[k] != '}' by {
                        assert(pi.skip(1)[k] == p[i + 1 + k]);
                    }
                    lemma_find_char_exact(pi.skip(1), '}', j - i - 1);
                }
                if j == i + 1 {
                    proof {
                        assert(parse_segments(pi) == Err::<Seq<Seg>, ParseError>(
                            ParseError::EmptyName,
                        ));
                    }
                    return Err(ParseError::EmptyName);
                }
                let name = pattern.substring_char(i + 1, j).to_owned();
                let ghost jj: int = j - i - 1;
                proof {
                    assert(name@ =~= pi.subrange(1, jj + 1));
                    assert(pi.skip(jj + 2) =~= p.skip(j + 1));
                }
                let ghost run_before = run@;
                let ghost segs_start = segments@;
                if !run.as_str().is_empty() {
                    segments.push(SubstitutingSegment::Plain(run));
                    run = String::new();
                }
                let ghost segs_mid = segments@;
                let ghost name_view = name@;
                segments.push(SubstitutingSegment::Variable(name));
                i = j + 1;
                proof {
                    if run_before.len() > 0 {
                        assert(segs_view(segs_mid) =~= segs_view(segs_start).push(
                            Seg::Plain(run_before),
                        ));
                    }
                    assert(segs_view(segments@) =~= segs_view(segs_mid).push(
                        Seg::Variable(name_view),
                    ));
                    match parse_segments(p.skip(j + 1)) {
                        Ok(rest2) => {
                            assert(parse_segments(pi) == Ok::<Seq<Seg>, ParseError>(
                                seq![Seg::Variable(name_view)] + rest2,
                            ));
                            let headed = seq![Seg::Variable(name_view)] + rest2;
                            assert(headed[0] == Seg::Variable(name_view));
                            if run_before.len() == 0 {
                                assert(merge_run(run_before, headed) == headed);
                                assert(segs_view(segs_start) + headed =~= segs_view(segments@)
                                    + rest2);
                            } else {
                                assert(merge_run(run_before, headed) == seq![Seg::Plain(
                                    run_before,
                                )] + headed);
                                assert(segs_view(segs_start) + (seq![Seg::Plain(run_before)]
                                    + headed) =~= segs_view(segments@) + rest2);
                            }
                            assert(merge_run(run@, rest2) == rest2);
                        },
                        Err(_) => {},
                    }
                }
            } else if c == '\\' && i + 1 < n {
                let c2 = pattern.get_char(i + 1);
                let ghost run_before = run@;
                push_char(&mut run, c2);
                proof {
                    assert(run@ == run_before.push(c2));
                    assert(pi.len() >= 2);
                    assert(pi[1] == p[i + 1]);
                    assert(pi.skip(2) =~= p.skip(i + 2));
                    match parse_segments(p.skip(i + 2)) {
                        Ok(rest) => {
                            assert(parse_segments(pi) == Ok::<Seq<Seg>, ParseError>(
                                cons_plain(c2, rest),
                            ));
                            lemma_merge_run_push(run_before, c2, rest);
                        },
                        Err(_) => {},
                    }
                }
                i = i + 2;
            } else {
                let ghost run_before = run@;
                push_char(&mut run, c);
                proof {
                    assert(run@ == run_before.push(c));
                    assert(pi.skip(1) =~= p.skip(i + 1));
                    match parse_segments(p.skip(i + 1)) {
                        Ok(rest) => {
                            assert(parse_segments(pi) == Ok::<Seq<Seg>, ParseError>(
                                cons_plain(c, rest),
                            ));
                            lemma_merge_run_push(run_before, c, rest);
                        },
                        Err(_) => {},
                    }
                }
                i = i + 1;
            }
        }
        proof {
            assert(pattern@.skip(i as int) =~= Seq::<char>::empty());
            assert(parse_segments(pattern@.skip(i as int)) == Ok::<Seq<Seg>, ParseError>(
                Seq::empty(),
            ));
        }
        if !run.as_str().is_empty() {
            let ghost segs_before = segments@;
            let ghost run_view = run@;
            segments.push(SubstitutingSegment::Plain(run));
            proof {
                assert(segs_view(segments@) =~= segs_view(segs_before).push(Seg::Plain(run_view)));
                assert(merge_run(run_view, Seq::<Seg>::empty()) =~= seq![Seg::Plain(run_view)]);
                assert(segs_view(segs_before) + merge_run(run_view, Seq::<Seg>::empty())
                    =~= segs_view(segments@));
            }
        } else {
            proof {
                assert(segs_view(segments@) + merge_run(run@, Seq::<Seg>::empty()) =~= segs_view(
                    segments@,
                ));
            }
        }
        proof {
            lemma_parse_wf(pattern@);
        }
        Ok(SubstitutingUrl { segments })
    }

    /// How many variables the template has.
    fn count_variables(&self) -> (r: usize)
        ensures
            r as int == var_names(self@).len(),
    {
        let mut count: usize = 0;
        let mut idx: usize = 0;
        proof {
            assert(self@.subrange(0, 0) =~= Seq::<Seg>::empty());
        }
        while idx < self.segments.len()
            invariant
                idx <= self.segments@.len(),
                count <= idx,
                count as int == var_names(segs_view(self.segments@).subrange(0, idx as int)).len(),
            decreases self.segments@.len() - idx,
        {
            let ghost prefix = self@.subrange(0, idx as int);
            let ghost cur = self@[idx as int];
            proof {
                assert(cur == self.segments@[idx as int]@);
                assert(self@.subrange(0, idx as int + 1) =~= prefix + seq![cur]);
                lemma_var_names_concat(prefix, seq![cur]);
                lemma_seg_singleton(cur, Map::empty(), Seq::empty(), 0);
            }
            let seg = &self.segments[idx];
            match seg {
                SubstitutingSegment::Plain(_) => {
                    proof {
                        assert(var_names(prefix) + var_names(seq![cur]) =~= var_names(prefix));
                    }
                },
                SubstitutingSegment::Variable(_) => {
                    count = count + 1;
                },
            }
            idx = idx + 1;
        }
        proof {
            assert(self@.subrange(0, self@.len() as int) =~= self@);
        }
        count
    }

    /// Render the template with named values: literal segments are emitted
    /// verbatim and each variable is replaced by the value its name maps
    /// to, where the first pair carrying the name decides. The first
    /// variable whose name the values lack fails the whole substitution,
    /// reporting the name and the variable's ordinal; nothing is returned
    /// in that case.
    pub fn sub_by_name(&self, values: &Vec<(String, String)>) -> (r: Result<
        String,
        SubstitutionError,
    >)
        ensures
            ({
                let m = pairs_to_map(values.deep_view());
                let names = var_names(self@);
                match first_absent(names, m) {
                    None => r matches Ok(out) && out@ == render_name(self@, m),
                    Some(pos) => r matches Err(SubstitutionError::MissingParameter {
                        url,
                        name,
                        position,
                    }) && url@ == template_repr(self@) && name@ == names[pos] && position as int
                        == pos,
                }
            }),
    {
        let ghost m = pairs_to_map(values.deep_view());
        let mut result = String::new();
        let mut position: usize = 0;
        let mut idx: usize = 0;
        proof {
            assert(self@.subrange(0, 0) =~= Seq::<Seg>::empty());
        }
        while idx < self.segments.len()
            invariant
                idx <= self.segments@.len(),
                position <= idx,
                m == pairs_to_map(values.deep_view()),
                position as int == var_names(segs_view(self.segments@).subrange(
                    0,
                    idx as int,
                )).len(),
                first_absent(
                    var_names(segs_view(self.segments@).subrange(0, idx as int)),
                    m,
                ) is None,
                result@ == render_name(segs_view(self.segments@).subrange(0, idx as int), m),
            decreases self.segments@.len() - idx,
        {
            let ghost prefix = self@.subrange(0, idx as int);
            let ghost cur = self@[idx as int];
            proof {
                assert(cur == self.segments@[idx as int]@);
                assert(self@.subrange(0, idx as int + 1) =~= prefix + seq![cur]);
                lemma_var_names_concat(prefix, seq![cur]);
                lemma_render_name_concat(prefix, seq![cur], m);
                lemma_seg_singleton(cur, m, Seq::empty(), 0);
                lemma_first_absent_concat(var_names(prefix), var_names(seq![cur]), m);
            }
            let seg = &self.segments[idx];
            match seg {
                SubstitutingSegment::Plain(text) => {
                    result.append(text.as_str());
                    proof {
                        assert(var_names(prefix) + var_names(seq![cur]) =~= var_names(prefix));
                    }
                },
                SubstitutingSegment::Variable(name) => {
                    match lookup_value(values, name) {
                        Some(val) => {
                            result.append(val.as_str());
                            position = position + 1;
                        },
                        None => {
                            proof {
                                let whole = self@;
                                let suffix = whole.subrange(idx as int, whole.len() as int);
                                assert(whole =~= prefix + suffix);
                                assert(suffix[0] == cur);
                                assert(suffix.skip(1) =~= whole.subrange(
                                    idx as int + 1,
                                    whole.len() as int,
                                ));
                                lemma_var_names_concat(prefix, suffix);
                                assert(var_names(suffix) == seq![name@] + var_names(
                                    suffix.skip(1),
                                ));
                                assert(var_names(suffix)[0] == name@);
                                assert(first_absent(var_names(suffix), m) == Some(0int));
                                lemma_first_absent_concat(var_names(prefix), var_names(suffix), m);
                                assert(first_absent(var_names(whole), m) == Some(
                                    position as int,
                                ));
                                assert(var_names(whole)[position as int] == name@);
                            }
                            let url = self.to_repr();
                            return Err(SubstitutionError::MissingParameter {
                                url,
                                name: name.clone(),
                                position,
                            });
                        },
                    }
                },
            }
            idx = idx + 1;
        }
        proof {
            assert(self@.subrange(0, self@.len() as int) =~= self@);
        }
        Ok(result)
    }

    /// Render the template with positional values. The template's variable
    /// count is checked against the value count up front: too few values
    /// fail before anything is rendered. Values are then consumed from the
    /// end of the list backward while variables are filled left to right,
    /// so the last value fills the first variable; surplus values at the
    /// front are never consumed. This reversed consumption order is a
    /// deliberate compatibility contract.
    pub fn sub_by_index(&self, values: &Vec<String>) -> (r: Result<String, SubstitutionError>)
        ensures
            ({
                let vs = values.deep_view();
                let total = var_names(self@).len();
                if vs.len() < total {
                    r matches Err(SubstitutionError::WrongNumberVariables { expected, found })
                        && expected as int == total && found as int == vs.len()
                } else {
                    r matches Ok(out) && out@ == render_index(self@, vs, 0)
                }
            }),
    {
        let total = self.count_variables();
        if values.len() < total {
            return Err(
                SubstitutionError::WrongNumberVariables { expected: total, found: values.len() },
            );
        }
        let ghost vs = values.deep_view();
        let mut result = String::new();
        let mut position: usize = 0;
        let mut idx: usize = 0;
        proof {
            assert(self@.subrange(0, 0) =~= Seq::<Seg>::empty());
        }
        while idx < self.segments.len()
            invariant
                idx <= self.segments@.len(),
                position <= idx,
                vs == values.deep_view(),
                vs.len() == values@.len(),
                total as int == var_names(segs_view(self.segments@)).len(),
                values@.len() >= total,
                position as int == var_names(segs_view(self.segments@).subrange(
                    0,
                    idx as int,
                )).len(),
                result@ == render_index(segs_view(self.segments@).subrange(0, idx as int), vs, 0),
            decreases self.segments@.len() - idx,
        {
            let ghost prefix = self@.subrange(0, idx as int);
            let ghost cur = self@[idx as int];
            proof {
                assert(cur == self.segments@[idx as int]@);
                assert(self@.subrange(0, idx as int + 1) =~= prefix + seq![cur]);
                lemma_var_names_concat(prefix, seq![cur]);
                lemma_render_index_concat(prefix, seq![cur], vs, 0);
                lemma_seg_singleton(cur, Map::empty(), vs, var_names(prefix).len() as int);
            }
            let seg = &self.segments[idx];
            match seg {
                SubstitutingSegment::Plain(text) => {
                    result.append(text.as_str());
                    proof {
                        assert(var_names(prefix) + var_names(seq![cur]) =~= var_names(prefix));
                    }
                },
                SubstitutingSegment::Variable(name) => {
                    proof {
                        let whole = self@;
                        let suffix = whole.subrange(idx as int, whole.len() as int);
                        assert(whole =~= prefix + suffix);
                        assert(suffix[0] == cur);
                        assert(suffix.skip(1) =~= whole.subrange(
                            idx as int + 1,
                            whole.len() as int,
                        ));
                        lemma_var_names_concat(prefix, suffix);
                        assert(var_names(suffix) == seq![name@] + var_names(suffix.skip(1)));
                        assert(var_names(whole).len() >= var_names(prefix).len() + 1);
                    }
                    let val = &values[values.len() - 1 - position];
                    result.append(val.as_str());
                    position = position + 1;
                },
            }
            idx = idx + 1;
        }
        proof {
            assert(self@.subrange(0, self@.len() as int) =~= self@);
        }
        Ok(result)
    }

    /// The template's canonical representation: literal text with `{` and
    /// `\` re-escaped, and each variable as `{name}`. Re-parsing it yields
    /// the template back.
    pub fn to_repr(&self) -> (r: String)
        ensures
            r@ == template_repr(self@),
    {
        let mut result = String::new();
        let mut idx: usize = 0;
        proof {
            assert(self@.subrange(0, 0) =~= Seq::<Seg>::empty());
        }
        while idx < self.segments.len()
            invariant
                idx <= self.segments@.len(),
                result@ == template_repr(segs_view(self.segments@).subrange(0, idx as int)),
            decreases self.segments@.len() - idx,
        {
            let ghost prefix = self@.subrange(0, idx as int);
            let ghost cur = self@[idx as int];
            proof {
                assert(cur == self.segments@[idx as int]@);
                assert(self@.subrange(0, idx as int + 1) =~= prefix + seq![cur]);
                lemma_template_repr_concat(prefix, seq![cur]);
                lemma_seg_singleton(cur, Map::empty(), Seq::empty(), 0);
            }
            let seg = &self.segments[idx];
            match seg {
                SubstitutingSegment::Plain(text) => {
                    let tlen = text.as_str().unicode_len();
                    let ghost rstart = result@;
                    let mut k: usize = 0;
                    proof {
                        assert(text@.subrange(0, 0) =~= Seq::<char>::empty());
                        assert(rstart + escape_plain(text@.subrange(0, 0)) =~= rstart);
                    }
                    while k < tlen
                        invariant
                            k <= tlen,
                            tlen as nat == text@.len(),
                            result@ == rstart + escape_plain(text@.subrange(0, k as int)),
                        decreases tlen - k,
                    {
                        let ch = text.as_str().get_char(k);
                        let ghost tp = text@.subrange(0, k as int);
                        let ghost rprev = result@;
                        if ch == '{' || ch == '\\' {
                            push_char(&mut result, '\\');
                        }
                        push_char(&mut result, ch);
                        proof {
                            assert(text@.subrange(0, k as int + 1) =~= tp + seq![ch]);
                            lemma_escape_plain_concat(tp, seq![ch]);
                            lemma_escape_single(ch);
                            if ch == '{' || ch == '\\' {
                                assert(rprev.push('\\').push(ch) =~= rprev + seq!['\\', ch]);
                            } else {
                                assert(rprev.push(ch) =~= rprev + seq![ch]);
                            }
                            assert(rstart + (escape_plain(tp) + escape_plain(seq![ch])) =~= (rstart
                                + escape_plain(tp)) + escape_plain(seq![ch]));
                        }
                        k = k + 1;
                    }
                    proof {
                        assert(text@.subrange(0, tlen as int) =~= text@);
                    }
                },
                SubstitutingSegment::Variable(name) => {
                    let ghost rprev = result@;
                    push_char(&mut result, '{');
                    result.append(name.as_str());
                    push_char(&mut result, '}');
                    proof {
                        assert(result@ =~= rprev + (seq!['{'] + name@ + seq!['}']));
                    }
                },
            }
            idx = idx + 1;
        }
        proof {
            assert(self@.subrange(0, self@.len() as int) =~= self@);
        }
        result
    }
}

/// Find the value the first pair with this name carries, if any.
fn lookup_value<'a>(values: &'a Vec<(String, String)>, name: &String) -> (r: Option<&'a String>)
    ensures
        match r {
            Some(v) => pairs_to_map(values.deep_view()).contains_key(name@) && v@ == pairs_to_map(
                values.deep_view(),
            )[name@],
            None => !pairs_to_map(values.deep_view()).contains_key(name@),
        },
{
    let ghost pairs = values.deep_view();
    let mut idx: usize = 0;
    while idx < values.len()
        invariant
            idx <= values@.len(),
            pairs == values.deep_view(),
            pairs.len() == values@.len(),
            forall|k: int| 0 <= k < idx ==> (#[trigger] pairs[k]).0 != name@,
        decreases values@.len() - idx,
    {
        let pair = &values[idx];
        if pair.0 == *name {
            proof {
                assert(pairs[idx as int] == (pair.0@, pair.1@));
                lemma_pairs_to_map_first(pairs, idx as int);
            }
            return Some(&pair.1);
        }
        proof {
            assert(pairs[idx as int] == (pair.0@, pair.1@));
        }
        idx = idx + 1;
    }
    proof {
        lemma_pairs_to_map_absent(pairs, name@);
    }
    None
}

impl core::str::FromStr for SubstitutingUrl {
    type Err = ParseError;

    fn from_str(s: &str) -> Result<SubstitutingUrl, ParseError> {
        SubstitutingUrl::parse(s)
    }
}

// ---------------------------------------------------------------------------
// Laws

/// Prepending one literal character leaves the substitution model of the
/// remainder intact: no variable appears, and every rendering grows by
/// exactly that character at the front.
proof fn lemma_cons_plain_model(c: char, rest: Seq<Seg>, m: Map<Seq<char>, Seq<char>>, vals: Seq<
    Seq<char>,
>, k: int)
    ensures
        var_names(cons_plain(c, rest)) == var_names(rest),
        render_name(cons_plain(c, rest), m) == seq![c] + render_name(rest, m),
        render_index(cons_plain(c, rest), vals, k) == seq![c] + render_index(rest, vals, k),
{
    let out = cons_plain(c, rest);
    if rest.len() > 0 && rest[0] is Plain {
        let t0 = rest[0]->Plain_0;
        assert(out == seq![Seg::Plain(seq![c] + t0)] + rest.skip(1));
        assert(out[0] == Seg::Plain(seq![c] + t0));
        assert(out.skip(1) =~= rest.skip(1));
        assert(var_names(out) =~= var_names(rest));
        assert((seq![c] + t0) + render_name(rest.skip(1), m) =~= seq![c] + (t0 + render_name(
            rest.skip(1),
            m,
        )));
        assert(render_name(out, m) =~= seq![c] + render_name(rest, m));
        assert((seq![c] + t0) + render_index(rest.skip(1), vals, k) =~= seq![c] + (t0
            + render_index(rest.skip(1), vals, k)));
        assert(render_index(out, vals, k) =~= seq![c] + render_index(rest, vals, k));
    } else {
        assert(out == seq![Seg::Plain(seq![c])] + rest);
        assert(out[0] == Seg::Plain(seq![c]));
        assert(out.skip(1) =~= rest);
        assert(var_names(out) =~= var_names(rest));
        assert(render_name(out, m) =~= seq![c] + render_name(rest, m));
        assert(render_index(out, vals, k) =~= seq![c] + render_index(rest, vals, k));
    }
}

/// A pattern with no `{` and no `\` parses, contains no variable, and both
/// substitution modes give the pattern back unchanged, whatever named or
/// positional values they are handed.
pub proof fn lemma_plain_pattern_unchanged(
    p: Seq<char>,
    m: Map<Seq<char>, Seq<char>>,
    vals: Seq<Seq<char>>,
)
    requires
        forall|k: int| 0 <= k < p.len() ==> p[k] != '{' && p[k] != '\\',
    ensures
        parse_segments(p) matches Ok(t) && var_names(t) == Seq::<Seq<char>>::empty()
            && first_absent(var_names(t), m) is None && render_name(t, m) == p && render_index(
            t,
            vals,
            0,
        ) == p,
    decreases p.len(),
{
    if p.len() == 0 {
        assert(parse_segments(p) == Ok::<Seq<Seg>, ParseError>(Seq::empty()));
        assert(var_names(Seq::<Seg>::empty()) == Seq::<Seq<char>>::empty());
        assert(render_name(Seq::<Seg>::empty(), m) =~= p);
        assert(render_index(Seq::<Seg>::empty(), vals, 0) =~= p);
    } else {
        let p1 = p.skip(1);
        assert forall|k: int| 0 <= k < p1.len() implies p1[k] != '{' && p1[k] != '\\' by {
            assert(p1[k] == p[k + 1]);
        }
        lemma_plain_pattern_unchanged(p1, m, vals);
        let t1 = parse_segments(p1).unwrap();
        assert(parse_segments(p) == Ok::<Seq<Seg>, ParseError>(cons_plain(p[0], t1)));
        lemma_cons_plain_model(p[0], t1, m, vals, 0);
        assert(seq![p[0]] + p1 =~= p);
    }
}

/// Parsing a variable's canonical representation yields that variable and
/// goes on with the remainder.
proof fn lemma_parse_variable_head(n: Seq<char>, rest_chars: Seq<char>)
    requires
        n.len() > 0,
        find_char(n, '}') is None,
    ensures
        parse_segments(seq!['{'] + n + seq!['}'] + rest_chars) == (match parse_segments(
            rest_chars,
        ) {
            Ok(r) => Ok::<Seq<Seg>, ParseError>(seq![Seg::Variable(n)] + r),
            Err(e) => Err(e),
        }),
{
    let p = seq!['{'] + n + seq!['}'] + rest_chars;
    assert(p.len() == n.len() + 2 + rest_chars.len());
    assert(p[0] == '{');
    let s1 = p.skip(1);
    lemma_find_char(n, '}');
    assert(s1[n.len() as int] == '}');
    assert forall|k: int| 0 <= k < n.len() implies s1[k] != '}' by {
        assert(s1[k] == n[k]);
    }
    lemma_find_char_exact(s1, '}', n.len() as int);
    assert(p.subrange(1, n.len() as int + 1) =~= n);
    assert(p.skip(n.len() as int + 2) =~= rest_chars);
}

/// Parsing a literal segment's canonical representation yields that
/// segment, provided the remainder starts with something other than
/// literal text, as the canonical shape guarantees.
proof fn lemma_parse_plain_head(t: Seq<char>, rest_chars: Seq<char>, rest_segs: Seq<Seg>)
    requires
        t.len() > 0,
        parse_segments(rest_chars) == Ok::<Seq<Seg>, ParseError>(rest_segs),
        rest_segs.len() == 0 || !(rest_segs[0] is Plain),
    ensures
        parse_segments(escape_plain(t) + rest_chars) == Ok::<Seq<Seg>, ParseError>(
            seq![Seg::Plain(t)] + rest_segs,
        ),
    decreases t.len(),
{
    let e = escape_plain(t);
    let p = e + rest_chars;
    let t1 = t.skip(1);
    let q = escape_plain(t1) + rest_chars;
    if t[0] == '{' || t[0] == '\\' {
        assert(e == seq!['\\', t[0]] + escape_plain(t1));
        assert(p[0] == '\\');
        assert(p.len() >= 2);
        assert(p[1] == t[0]);
        assert(p.skip(2) =~= q);
    } else {
        assert(e == seq![t[0]] + escape_plain(t1));
        assert(p[0] == t[0]);
        assert(p.skip(1) =~= q);
    }
    if t1.len() == 0 {
        assert(escape_plain(t1) == Seq::<char>::empty());
        assert(q =~= rest_chars);
        assert(parse_segments(q) == Ok::<Seq<Seg>, ParseError>(rest_segs));
        assert(parse_segments(p) == Ok::<Seq<Seg>, ParseError>(cons_plain(t[0], rest_segs)));
        if rest_segs.len() > 0 {
            assert(!(rest_segs[0] is Plain));
        }
        assert(cons_plain(t[0], rest_segs) == seq![Seg::Plain(seq![t[0]])] + rest_segs);
        assert(seq![t[0]] =~= t);
    } else {
        lemma_parse_plain_head(t1, rest_chars, rest_segs);
        assert(parse_segments(q) == Ok::<Seq<Seg>, ParseError>(seq![Seg::Plain(t1)] + rest_segs));
        assert(parse_segments(p) == Ok::<Seq<Seg>, ParseError>(
            cons_plain(t[0], seq![Seg::Plain(t1)] + rest_segs),
        ));
        let mid = seq![Seg::Plain(t1)] + rest_segs;
        assert(mid[0] == Seg::Plain(t1));
        assert(cons_plain(t[0], mid) == seq![Seg::Plain(seq![t[0]] + t1)] + mid.skip(1));
        assert(mid.skip(1) =~= rest_segs);
        assert(seq![t[0]] + t1 =~= t);
        assert(cons_plain(t[0], mid) =~~= seq![Seg::Plain(t)] + rest_segs);
    }
}

/// The canonical-form invariant: re-parsing a well-formed template's
/// canonical representation gives exactly that template back. In
/// particular, whatever `parse` built, `to_repr` re-serializes losslessly.
pub proof fn lemma_repr_round_trip(segs: Seq<Seg>)
    requires
        wf_template(segs),
    ensures
        parse_segments(template_repr(segs)) == Ok::<Seq<Seg>, ParseError>(segs),
    decreases segs.len(),
{
    if segs.len() == 0 {
        assert(template_repr(segs) == Seq::<char>::empty());
        assert(parse_segments(Seq::<char>::empty()) == Ok::<Seq<Seg>, ParseError>(Seq::empty()));
        assert(Seq::<Seg>::empty() =~= segs);
    } else {
        let rest = segs.skip(1);
        assert forall|i: int| 0 <= i < rest.len() implies wf_seg(#[trigger] rest[i]) by {
            assert(rest[i] == segs[i + 1]);
        }
        assert forall|i: int|
            0 <= i && i + 1 < rest.len() implies !((#[trigger] rest[i]) is Plain && rest[i
            + 1] is Plain) by {
            assert(rest[i] == segs[i + 1]);
            assert(rest[i + 1] == segs[i + 2]);
        }
        lemma_repr_round_trip(rest);
        let rc = template_repr(rest);
        assert(template_repr(segs) == seg_repr(segs[0]) + rc);
        assert(wf_seg(segs[0]));
        match segs[0] {
            Seg::Variable(n) => {
                lemma_parse_variable_head(n, rc);
                assert(seg_repr(segs[0]) + rc =~= seq!['{'] + n + seq!['}'] + rc);
                assert(seq![Seg::Variable(n)] + rest =~= segs);
            },
            Seg::Plain(t) => {
                if rest.len() > 0 {
                    assert(!(segs[0] is Plain && segs[1] is Plain));
                    assert(rest[0] == segs[1]);
                }
                lemma_parse_plain_head(t, rc, rest);
                assert(seq![Seg::Plain(t)] + rest =~= segs);
            },
        }
    }
}

} // verus!
