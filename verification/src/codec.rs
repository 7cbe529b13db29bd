//! The `mimeapps.list` grammar: a line-oriented, section-delimited text
//! format. Each data line is `key=value1;value2;...;`; duplicate values keep
//! their first occurrence, empty values are ignored, and unrecognized
//! sections or lines are skipped rather than rejected. Serialization writes
//! the sections with their entries sorted by key, and omits the removed
//! section entirely when it is empty.
use vstd::prelude::*;
use crate::ident::{handler_valid, mime_valid, Handler, MimeId};
use crate::order::{clone_bytes, eq_bytes};
use crate::table::{hl_view, hlist_wf, insert_entry, HandlerList, MimeApps, MimeMap};

verus! {

/// The segments of `b` between occurrences of `sep`; always nonempty, and a
/// trailing separator yields a final empty segment.
pub open spec fn split_on(b: Seq<u8>, sep: u8) -> Seq<Seq<u8>>
    decreases b.len(),
{
    if b.len() == 0 {
        seq![Seq::<u8>::empty()]
    } else if b[0] == sep {
        seq![Seq::<u8>::empty()] + split_on(b.skip(1), sep)
    } else {
        let r = split_on(b.skip(1), sep);
        seq![seq![b[0]] + r[0]] + r.skip(1)
    }
}

pub proof fn lemma_split_on_nonempty(b: Seq<u8>, sep: u8)
    ensures
        split_on(b, sep).len() >= 1,
    decreases b.len(),
{
    if b.len() > 0 {
        lemma_split_on_nonempty(b.skip(1), sep);
    }
}

/// The position of the first `=` in a line, if any.
pub open spec fn first_eq(line: Seq<u8>) -> Option<int>
    decreases line.len(),
{
    if line.len() == 0 {
        None
    } else if line[0] == 0x3d {
        Some(0int)
    } else {
        match first_eq(line.skip(1)) {
            Some(i) => Some(i + 1),
            None => None,
        }
    }
}

pub proof fn lemma_first_eq_at(line: Seq<u8>, i: int)
    requires
        0 <= i < line.len(),
        line[i] == 0x3d,
        forall|k: int| 0 <= k < i ==> line[k] != 0x3d,
    ensures
        first_eq(line) == Some(i),
    decreases i,
{
    if i > 0 {
        let t = line.skip(1);
        assert(forall|k: int| 0 <= k < t.len() ==> t[k] == line[k + 1]);
        lemma_first_eq_at(t, i - 1);
    }
}

pub proof fn lemma_first_eq_none(line: Seq<u8>)
    requires
        forall|k: int| 0 <= k < line.len() ==> line[k] != 0x3d,
    ensures
        first_eq(line) is None,
    decreases line.len(),
{
    if line.len() > 0 {
        let t = line.skip(1);
        assert(forall|k: int| 0 <= k < t.len() ==> t[k] == line[k + 1]);
        lemma_first_eq_none(t);
    }
}

/// Keeps the well-formed handler tokens of `segs`, first occurrence first,
/// dropping empties and duplicates.
pub open spec fn clean_tokens(segs: Seq<Seq<u8>>, acc: Seq<Seq<u8>>) -> Seq<Seq<u8>>
    decreases segs.len(),
{
    if segs.len() == 0 {
        acc
    } else {
        let acc2 = if handler_valid(segs[0]) && !acc.contains(segs[0]) {
            acc.push(segs[0])
        } else {
            acc
        };
        clean_tokens(segs.skip(1), acc2)
    }
}

pub proof fn lemma_clean_snoc(segs: Seq<Seq<u8>>, x: Seq<u8>, acc: Seq<Seq<u8>>)
    ensures
        clean_tokens(segs.push(x), acc) == ({
            let r = clean_tokens(segs, acc);
            if handler_valid(x) && !r.contains(x) {
                r.push(x)
            } else {
                r
            }
        }),
    decreases segs.len(),
{
    if segs.len() == 0 {
        assert(segs.push(x)[0] == x);
        assert(segs.push(x).skip(1) =~= segs);
        let acc2 = if handler_valid(x) && !acc.contains(x) {
            acc.push(x)
        } else {
            acc
        };
        assert(clean_tokens(segs.push(x), acc) == clean_tokens(segs, acc2));
        assert(clean_tokens(segs, acc2) == acc2);
        assert(clean_tokens(segs, acc) == acc);
    } else {
        assert(segs.push(x)[0] == segs[0]);
        assert(segs.push(x).skip(1) =~= segs.skip(1).push(x));
        let acc2 = if handler_valid(segs[0]) && !acc.contains(segs[0]) {
            acc.push(segs[0])
        } else {
            acc
        };
        assert(clean_tokens(segs.push(x), acc) == clean_tokens(segs.skip(1).push(x), acc2));
        lemma_clean_snoc(segs.skip(1), x, acc2);
        assert(clean_tokens(segs, acc) == clean_tokens(segs.skip(1), acc2));
    }
}

/// Every cleaned token list is made of valid, pairwise distinct tokens.
pub proof fn lemma_clean_tokens_wf(segs: Seq<Seq<u8>>, acc: Seq<Seq<u8>>)
    requires
        forall|i: int| 0 <= i < acc.len() ==> handler_valid(#[trigger] acc[i]),
        forall|i: int, j: int| 0 <= i < j < acc.len() ==> acc[i] != acc[j],
    ensures
        forall|i: int|
            0 <= i < clean_tokens(segs, acc).len() ==> handler_valid(
                #[trigger] clean_tokens(segs, acc)[i],
            ),
        forall|i: int, j: int|
            0 <= i < j < clean_tokens(segs, acc).len() ==> clean_tokens(segs, acc)[i]
                != clean_tokens(segs, acc)[j],
    decreases segs.len(),
{
    if segs.len() > 0 {
        let acc2 = if handler_valid(segs[0]) && !acc.contains(segs[0]) {
            acc.push(segs[0])
        } else {
            acc
        };
        if handler_valid(segs[0]) && !acc.contains(segs[0]) {
            assert forall|i: int, j: int| 0 <= i < j < acc2.len() implies acc2[i]
                != acc2[j] by {
                if j == acc.len() {
                    assert(acc2[i] == acc[i]);
                    assert(!acc.contains(segs[0]));
                } else {
                    assert(acc2[i] == acc[i] && acc2[j] == acc[j]);
                }
            }
            assert forall|i: int| 0 <= i < acc2.len() implies handler_valid(
                #[trigger] acc2[i],
            ) by {
                if i < acc.len() {
                    assert(acc2[i] == acc[i]);
                } else {
                    assert(acc2[i] == segs[0]);
                }
            }
        }
        lemma_clean_tokens_wf(segs.skip(1), acc2);
        assert(clean_tokens(segs, acc) == clean_tokens(segs.skip(1), acc2));
    }
}

/// A parsed data line: the key before the first `=`, and the cleaned handler
/// tokens of the value after it. Lines with no `=`, a malformed key, or no
/// surviving token are ignored.
pub open spec fn parse_property(line: Seq<u8>) -> Option<(Seq<u8>, Seq<Seq<u8>>)> {
    match first_eq(line) {
        Some(i) => {
            let k = line.take(i);
            let toks = clean_tokens(split_on(line.skip(i + 1), 0x3b), Seq::empty());
            if mime_valid(k) && toks.len() > 0 {
                Some((k, toks))
            } else {
                None
            }
        },
        None => None,
    }
}

/// Which section's entries the parser is currently reading.
#[derive(Clone, Copy)]
pub enum Section {
    Added,
    Removed,
    Defaults,
    Other,
}

pub open spec fn added_name() -> Seq<u8> {
    seq![0x41u8, 0x64u8, 0x64u8, 0x65u8, 0x64u8, 0x20u8, 0x41u8, 0x73u8, 0x73u8, 0x6fu8, 0x63u8, 0x69u8, 0x61u8, 0x74u8, 0x69u8, 0x6fu8, 0x6eu8, 0x73u8]
}

pub open spec fn removed_name() -> Seq<u8> {
    seq![0x52u8, 0x65u8, 0x6du8, 0x6fu8, 0x76u8, 0x65u8, 0x64u8, 0x20u8, 0x41u8, 0x73u8, 0x73u8, 0x6fu8, 0x63u8, 0x69u8, 0x61u8, 0x74u8, 0x69u8, 0x6fu8, 0x6eu8, 0x73u8]
}

pub open spec fn defaults_name() -> Seq<u8> {
    seq![0x44u8, 0x65u8, 0x66u8, 0x61u8, 0x75u8, 0x6cu8, 0x74u8, 0x20u8, 0x41u8, 0x70u8, 0x70u8, 0x6cu8, 0x69u8, 0x63u8, 0x61u8, 0x74u8, 0x69u8, 0x6fu8, 0x6eu8, 0x73u8]
}

/// One step of the line parser: a `[name]` line switches sections, a data
/// line inserts into the current section's mapping, anything else is skipped.
pub open spec fn process_line(
    sect: Section,
    t: (Seq<(Seq<u8>, Seq<Seq<u8>>)>, Seq<(Seq<u8>, Seq<Seq<u8>>)>, Seq<(Seq<u8>, Seq<Seq<u8>>)>),
    line: Seq<u8>,
) -> (Section, (
    Seq<(Seq<u8>, Seq<Seq<u8>>)>,
    Seq<(Seq<u8>, Seq<Seq<u8>>)>,
    Seq<(Seq<u8>, Seq<Seq<u8>>)>,
)) {
    if line.len() >= 2 && line[0] == 0x5b && line[line.len() - 1] == 0x5d {
        let name = line.subrange(1, line.len() - 1);
        let s2 = if name == added_name() {
            Section::Added
        } else if name == removed_name() {
            Section::Removed
        } else if name == defaults_name() {
            Section::Defaults
        } else {
            Section::Other
        };
        (s2, t)
    } else {
        match parse_property(line) {
            Some(kv) => match sect {
                Section::Added => (sect, (insert_entry(t.0, kv.0, kv.1), t.1, t.2)),
                Section::Removed => (sect, (t.0, insert_entry(t.1, kv.0, kv.1), t.2)),
                Section::Defaults => (sect, (t.0, t.1, insert_entry(t.2, kv.0, kv.1))),
                Section::Other => (sect, t),
            },
            None => (sect, t),
        }
    }
}

/// The whole line parser, folded over the lines in order.
pub open spec fn parse_lines(
    lines: Seq<Seq<u8>>,
    sect: Section,
    t: (Seq<(Seq<u8>, Seq<Seq<u8>>)>, Seq<(Seq<u8>, Seq<Seq<u8>>)>, Seq<(Seq<u8>, Seq<Seq<u8>>)>),
) -> (Section, (
    Seq<(Seq<u8>, Seq<Seq<u8>>)>,
    Seq<(Seq<u8>, Seq<Seq<u8>>)>,
    Seq<(Seq<u8>, Seq<Seq<u8>>)>,
))
    decreases lines.len(),
{
    if lines.len() == 0 {
        (sect, t)
    } else {
        let st = process_line(sect, t, lines[0]);
        parse_lines(lines.skip(1), st.0, st.1)
    }
}

pub proof fn lemma_parse_lines_snoc(
    lines: Seq<Seq<u8>>,
    x: Seq<u8>,
    sect: Section,
    t: (Seq<(Seq<u8>, Seq<Seq<u8>>)>, Seq<(Seq<u8>, Seq<Seq<u8>>)>, Seq<(Seq<u8>, Seq<Seq<u8>>)>),
)
    ensures
        parse_lines(lines.push(x), sect, t) == ({
            let st = parse_lines(lines, sect, t);
            process_line(st.0, st.1, x)
        }),
    decreases lines.len(),
{
    if lines.len() == 0 {
        assert(lines.push(x)[0] == x);
        assert(lines.push(x).skip(1) =~= lines);
        let st = process_line(sect, t, x);
        assert(parse_lines(lines.push(x), sect, t) == parse_lines(lines, st.0, st.1));
        assert(parse_lines(lines, st.0, st.1) == (st.0, st.1));
        assert(parse_lines(lines, sect, t) == (sect, t));
    } else {
        assert(lines.push(x)[0] == lines[0]);
        assert(lines.push(x).skip(1) =~= lines.skip(1).push(x));
        let st = process_line(sect, t, lines[0]);
        assert(parse_lines(lines.push(x), sect, t) == parse_lines(
            lines.skip(1).push(x),
            st.0,
            st.1,
        ));
        lemma_parse_lines_snoc(lines.skip(1), x, st.0, st.1);
        assert(parse_lines(lines, sect, t) == parse_lines(lines.skip(1), st.0, st.1));
    }
}

/// The parser's view of a whole file.
pub open spec fn parse_spec(input: Seq<u8>) -> (
    Seq<(Seq<u8>, Seq<Seq<u8>>)>,
    Seq<(Seq<u8>, Seq<Seq<u8>>)>,
    Seq<(Seq<u8>, Seq<Seq<u8>>)>,
) {
    parse_lines(
        split_on(input, 0x0a),
        Section::Other,
        (
            Seq::<(Seq<u8>, Seq<Seq<u8>>)>::empty(),
            Seq::<(Seq<u8>, Seq<Seq<u8>>)>::empty(),
            Seq::<(Seq<u8>, Seq<Seq<u8>>)>::empty(),
        ),
    ).1
}

/// A handler list rendered as `value1;value2;...;`.
pub open spec fn render_handlers(v: Seq<Seq<u8>>) -> Seq<u8>
    decreases v.len(),
{
    if v.len() == 0 {
        Seq::<u8>::empty()
    } else {
        v[0] + seq![0x3bu8] + render_handlers(v.skip(1))
    }
}

/// A data line `key=value1;value2;...;` with its terminating newline.
pub open spec fn render_line(k: Seq<u8>, v: Seq<Seq<u8>>) -> Seq<u8> {
    k + seq![0x3du8] + render_handlers(v) + seq![0x0au8]
}

/// A section's data lines, in entry order.
pub open spec fn render_section(s: Seq<(Seq<u8>, Seq<Seq<u8>>)>) -> Seq<u8>
    decreases s.len(),
{
    if s.len() == 0 {
        Seq::<u8>::empty()
    } else {
        render_line(s[0].0, s[0].1) + render_section(s.skip(1))
    }
}

pub open spec fn header_of(name: Seq<u8>) -> Seq<u8> {
    seq![0x5bu8] + name + seq![0x5du8, 0x0au8]
}

/// The serialized file: the added section, the removed section only when
/// nonempty, then the defaults section, each preceded by its header; a blank
/// line separates consecutive sections.
pub open spec fn render_table(
    added: Seq<(Seq<u8>, Seq<Seq<u8>>)>,
    removed: Seq<(Seq<u8>, Seq<Seq<u8>>)>,
    defaults: Seq<(Seq<u8>, Seq<Seq<u8>>)>,
) -> Seq<u8> {
    header_of(added_name()) + render_section(added) + (if removed.len() == 0 {
        Seq::<u8>::empty()
    } else {
        seq![0x0au8] + header_of(removed_name()) + render_section(removed)
    }) + seq![0x0au8] + header_of(defaults_name()) + render_section(defaults)
}

pub proof fn lemma_render_handlers_snoc(v: Seq<Seq<u8>>, x: Seq<u8>)
    ensures
        render_handlers(v.push(x)) == render_handlers(v) + x + seq![0x3bu8],
    decreases v.len(),
{
    if v.len() == 0 {
        assert(v.push(x)[0] == x);
        assert(v.push(x).skip(1) =~= v);
        assert(render_handlers(v.push(x)) =~= render_handlers(v) + x + seq![0x3bu8]);
    } else {
        assert(v.push(x)[0] == v[0]);
        assert(v.push(x).skip(1) =~= v.skip(1).push(x));
        lemma_render_handlers_snoc(v.skip(1), x);
        assert(render_handlers(v.push(x)) =~= render_handlers(v) + x + seq![0x3bu8]);
    }
}

pub proof fn lemma_render_section_snoc(s: Seq<(Seq<u8>, Seq<Seq<u8>>)>, e: (Seq<u8>, Seq<Seq<u8>>))
    ensures
        render_section(s.push(e)) == render_section(s) + render_line(e.0, e.1),
    decreases s.len(),
{
    if s.len() == 0 {
        assert(s.push(e)[0] == e);
        assert(s.push(e).skip(1) =~= s);
        assert(render_section(s.push(e)) =~= render_section(s) + render_line(e.0, e.1));
    } else {
        assert(s.push(e)[0] == s[0]);
        assert(s.push(e).skip(1) =~= s.skip(1).push(e));
        lemma_render_section_snoc(s.skip(1), e);
        assert(render_section(s.push(e)) =~= render_section(s) + render_line(e.0, e.1));
    }
}

/// Appends all of `v` to `out`.
fn push_all(out: &mut Vec<u8>, v: &Vec<u8>)
    ensures
        final(out)@ == old(out)@ + v@,
{
    let n = v.len();
    let mut i: usize = 0;
    while i < n
        invariant
            n == v.len(),
            i <= n,
            out@ =~= old(out)@ + v@.take(i as int),
        decreases n - i,
    {
        out.push(v[i]);
        i = i + 1;
    }
    proof {
        assert(v@.take(n as int) =~= v@);
    }
}

fn added_name_vec() -> (r: Vec<u8>)
    ensures
        r@ == added_name(),
{
    let mut r: Vec<u8> = Vec::new();
    r.push(0x41);
    r.push(0x64);
    r.push(0x64);
    r.push(0x65);
    r.push(0x64);
    r.push(0x20);
    r.push(0x41);
    r.push(0x73);
    r.push(0x73);
    r.push(0x6f);
    r.push(0x63);
    r.push(0x69);
    r.push(0x61);
    r.push(0x74);
    r.push(0x69);
    r.push(0x6f);
    r.push(0x6e);
    r.push(0x73);
    proof {
        assert(r@ =~= added_name());
    }
    r
}

fn removed_name_vec() -> (r: Vec<u8>)
    ensures
        r@ == removed_name(),
{
    let mut r: Vec<u8> = Vec::new();
    r.push(0x52);
    r.push(0x65);
    r.push(0x6d);
    r.push(0x6f);
    r.push(0x76);
    r.push(0x65);
    r.push(0x64);
    r.push(0x20);
    r.push(0x41);
    r.push(0x73);
    r.push(0x73);
    r.push(0x6f);
    r.push(0x63);
    r.push(0x69);
    r.push(0x61);
    r.push(0x74);
    r.push(0x69);
    r.push(0x6f);
    r.push(0x6e);
    r.push(0x73);
    proof {
        assert(r@ =~= removed_name());
    }
    r
}

fn defaults_name_vec() -> (r: Vec<u8>)
    ensures
        r@ == defaults_name(),
{
    let mut r: Vec<u8> = Vec::new();
    r.push(0x44);
    r.push(0x65);
    r.push(0x66);
    r.push(0x61);
    r.push(0x75);
    r.push(0x6c);
    r.push(0x74);
    r.push(0x20);
    r.push(0x41);
    r.push(0x70);
    r.push(0x70);
    r.push(0x6c);
    r.push(0x69);
    r.push(0x63);
    r.push(0x61);
    r.push(0x74);
    r.push(0x69);
    r.push(0x6f);
    r.push(0x6e);
    r.push(0x73);
    proof {
        assert(r@ =~= defaults_name());
    }
    r
}

/// Appends `[name]` and a newline.
fn push_header(out: &mut Vec<u8>, name: &Vec<u8>)
    ensures
        final(out)@ == old(out)@ + header_of(name@),
{
    let ghost pre = out@;
    out.push(0x5b);
    push_all(out, name);
    out.push(0x5d);
    out.push(0x0a);
    proof {
        assert(out@ =~= pre + header_of(name@));
    }
}

/// Appends one section's data lines, in entry order.
fn push_section(out: &mut Vec<u8>, map: &MimeMap)
    ensures
        final(out)@ == old(out)@ + render_section(map@),
{
    let ghost pre = out@;
    let n = map.len();
    let mut i: usize = 0;
    while i < n
        invariant
            n == map@.len(),
            i <= n,
            out@ == pre + render_section(map@.take(i as int)),
        decreases n - i,
    {
        let ghost sofar = out@;
        let key = map.key_at(i);
        let list = map.list_at(i);
        push_all(out, key.as_bytes());
        out.push(0x3d);
        let ghost vprefix = out@;
        let hn = list.len();
        let mut j: usize = 0;
        while j < hn
            invariant
                hn == list@.len(),
                j <= hn,
                out@ == vprefix + render_handlers(list@.take(j as int)),
            decreases hn - j,
        {
            let h = list.item_at(j);
            push_all(out, h.as_bytes());
            out.push(0x3b);
            proof {
                assert(list@.take(j as int).push(list@[j as int]) =~= list@.take(j + 1));
                lemma_render_handlers_snoc(list@.take(j as int), list@[j as int]);
                assert(out@ =~= vprefix + render_handlers(list@.take(j + 1)));
            }
            j = j + 1;
        }
        out.push(0x0a);
        proof {
            assert(list@.take(hn as int) =~= list@);
            assert(out@ =~= sofar + render_line(map@[i as int].0, map@[i as int].1));
            assert(map@.take(i as int).push(map@[i as int]) =~= map@.take(i + 1));
            lemma_render_section_snoc(map@.take(i as int), map@[i as int]);
            assert(out@ =~= pre + render_section(map@.take(i + 1)));
        }
        i = i + 1;
    }
    proof {
        assert(map@.take(n as int) =~= map@);
    }
}

/// Serializes the table: sections sorted by key (the maps are key-sorted),
/// the removed section omitted when empty, for reproducible files.
pub fn serialize(apps: &MimeApps) -> (out: Vec<u8>)
    ensures
        out@ == render_table(
            apps.added_associations@,
            apps.removed_associations@,
            apps.default_apps@,
        ),
{
    let mut out: Vec<u8> = Vec::new();
    let added_nm = added_name_vec();
    let removed_nm = removed_name_vec();
    let defaults_nm = defaults_name_vec();
    proof {
        assert(out@ =~= Seq::<u8>::empty());
    }
    push_header(&mut out, &added_nm);
    push_section(&mut out, &apps.added_associations);
    if apps.removed_associations.len() > 0 {
        out.push(0x0a);
        push_header(&mut out, &removed_nm);
        push_section(&mut out, &apps.removed_associations);
    }
    out.push(0x0a);
    push_header(&mut out, &defaults_nm);
    push_section(&mut out, &apps.default_apps);
    proof {
        assert(out@ =~= render_table(
            apps.added_associations@,
            apps.removed_associations@,
            apps.default_apps@,
        ));
    }
    out
}


/// The mathematical view of a vector of byte vectors.
pub open spec fn vecs_view(v: Seq<Vec<u8>>) -> Seq<Seq<u8>> {
    Seq::new(v.len(), |i: int| v[i]@)
}

/// The first segment extended with `c` at the front.
pub open spec fn prepend_first(c: Seq<u8>, ss: Seq<Seq<u8>>) -> Seq<Seq<u8>>
    recommends
        ss.len() > 0,
{
    seq![c + ss[0]] + ss.skip(1)
}

/// Splits `b` at each occurrence of `sep`.
fn split_bytes(b: &Vec<u8>, sep: u8) -> (r: Vec<Vec<u8>>)
    ensures
        vecs_view(r@) == split_on(b@, sep),
{
    let n = b.len();
    let mut out: Vec<Vec<u8>> = Vec::new();
    let mut cur: Vec<u8> = Vec::new();
    let mut i: usize = 0;
    proof {
        lemma_split_on_nonempty(b@, sep);
        assert(b@.skip(0) =~= b@);
        assert(vecs_view(out@) =~= Seq::<Seq<u8>>::empty());
        assert(prepend_first(cur@, split_on(b@, sep)) =~~= split_on(b@, sep));
        assert(split_on(b@, sep) =~~= vecs_view(out@) + prepend_first(
            cur@,
            split_on(b@.skip(0), sep),
        ));
    }
    while i < n
        invariant
            n == b.len(),
            i <= n,
            split_on(b@, sep) == vecs_view(out@) + prepend_first(
                cur@,
                split_on(b@.skip(i as int), sep),
            ),
        decreases n - i,
    {
        let ghost rest = b@.skip(i as int);
        let ghost rest2 = b@.skip(i as int + 1);
        proof {
            assert(rest[0] == b@[i as int]);
            assert(rest.skip(1) =~= rest2);
            lemma_split_on_nonempty(rest2, sep);
        }
        let c = b[i];
        if c == sep {
            let ghost pre_out = out@;
            let ghost pre_cur = cur@;
            out.push(cur);
            cur = Vec::new();
            proof {
                assert(split_on(rest, sep) == seq![Seq::<u8>::empty()] + split_on(rest2, sep));
                assert(vecs_view(out@) =~= vecs_view(pre_out).push(pre_cur));
                assert(prepend_first(pre_cur, split_on(rest, sep)) =~~= seq![pre_cur]
                    + split_on(rest2, sep));
                assert(prepend_first(cur@, split_on(rest2, sep)) =~~= split_on(rest2, sep));
                assert(split_on(b@, sep) =~~= vecs_view(out@) + prepend_first(
                    cur@,
                    split_on(rest2, sep),
                ));
            }
        } else {
            let ghost pre_cur = cur@;
            cur.push(c);
            proof {
                let rr = split_on(rest2, sep);
                assert(split_on(rest, sep) == seq![seq![b@[i as int]] + rr[0]] + rr.skip(1));
                assert(prepend_first(pre_cur, split_on(rest, sep)) =~~= prepend_first(
                    cur@,
                    rr,
                ));
            }
        }
        i = i + 1;
    }
    let ghost pre_out = out@;
    let ghost pre_cur = cur@;
    out.push(cur);
    proof {
        assert(b@.skip(n as int).len() == 0);
        assert(split_on(b@.skip(n as int), sep) == seq![Seq::<u8>::empty()]);
        assert(prepend_first(pre_cur, seq![Seq::<u8>::empty()]) =~~= seq![pre_cur]);
        assert(vecs_view(out@) =~= vecs_view(pre_out).push(pre_cur));
        assert(vecs_view(out@) =~~= split_on(b@, sep));
    }
    out
}

/// The position of the first `=` in the line, if any.
fn find_eq(line: &Vec<u8>) -> (r: Option<usize>)
    ensures
        match r {
            Some(i) => i < line@.len() && first_eq(line@) == Some(i as int),
            None => first_eq(line@) is None,
        },
{
    let n = line.len();
    let mut i: usize = 0;
    while i < n
        invariant
            n == line.len(),
            i <= n,
            forall|k: int| 0 <= k < i ==> line@[k] != 0x3d,
        decreases n - i,
    {
        if line[i] == 0x3d {
            proof {
                lemma_first_eq_at(line@, i as int);
            }
            return Some(i);
        }
        i = i + 1;
    }
    proof {
        lemma_first_eq_none(line@);
    }
    None
}

/// A fresh vector holding the bytes of `b` from `lo` up to `hi`.
pub(crate) fn copy_range(b: &Vec<u8>, lo: usize, hi: usize) -> (r: Vec<u8>)
    requires
        lo <= hi <= b@.len(),
    ensures
        r@ == b@.subrange(lo as int, hi as int),
{
    let mut r: Vec<u8> = Vec::new();
    let mut i: usize = lo;
    while i < hi
        invariant
            lo <= i <= hi <= b@.len(),
            b@.len() == b.len(),
            r@ =~= b@.subrange(lo as int, i as int),
        decreases hi - i,
    {
        r.push(b[i]);
        i = i + 1;
    }
    proof {
        assert(r@ =~= b@.subrange(lo as int, hi as int));
    }
    r
}

fn toks_contains(toks: &Vec<Handler>, h: &Handler) -> (r: bool)
    ensures
        r == hl_view(toks@).contains(h@),
{
    let n = toks.len();
    let mut i: usize = 0;
    while i < n
        invariant
            n == toks.len(),
            i <= n,
            forall|k: int| 0 <= k < i ==> hl_view(toks@)[k] != h@,
        decreases n - i,
    {
        if toks[i].same(h) {
            proof {
                assert(hl_view(toks@)[i as int] == h@);
            }
            return true;
        }
        i = i + 1;
    }
    proof {
        if hl_view(toks@).contains(h@) {
            let k = choose|k: int| 0 <= k < hl_view(toks@).len() && hl_view(toks@)[k] == h@;
        }
    }
    false
}

/// Parses a whole `mimeapps.list` file. Unrecognized sections and malformed
/// lines are skipped, never an error; a later line for the same key replaces
/// an earlier one; an absent or empty file parses as the empty table.
pub fn parse(input: &Vec<u8>) -> (r: MimeApps)
    ensures
        r.wf(),
        r.added_associations@ == parse_spec(input@).0,
        r.removed_associations@ == parse_spec(input@).1,
        r.default_apps@ == parse_spec(input@).2,
{
    let lines = split_bytes(input, 0x0a);
    let ghost lv = vecs_view(lines@);
    let added_nm = added_name_vec();
    let removed_nm = removed_name_vec();
    let defaults_nm = defaults_name_vec();
    let mut apps = MimeApps::new();
    let mut sect = Section::Other;
    proof {
        assert(lv.take(0) =~= Seq::<Seq<u8>>::empty());
        assert(apps.added_associations@ =~= Seq::<(Seq<u8>, Seq<Seq<u8>>)>::empty());
        assert(apps.removed_associations@ =~= Seq::<(Seq<u8>, Seq<Seq<u8>>)>::empty());
        assert(apps.default_apps@ =~= Seq::<(Seq<u8>, Seq<Seq<u8>>)>::empty());
    }
    let nl = lines.len();
    let mut i: usize = 0;
    while i < nl
        invariant
            nl == lines@.len(),
            i <= nl,
            lv == vecs_view(lines@),
            added_nm@ == added_name(),
            removed_nm@ == removed_name(),
            defaults_nm@ == defaults_name(),
            apps.wf(),
            ({
                let st = parse_lines(
                    lv.take(i as int),
                    Section::Other,
                    (
                        Seq::<(Seq<u8>, Seq<Seq<u8>>)>::empty(),
                        Seq::<(Seq<u8>, Seq<Seq<u8>>)>::empty(),
                        Seq::<(Seq<u8>, Seq<Seq<u8>>)>::empty(),
                    ),
                );
                sect == st.0 && apps.added_associations@ == st.1.0
                    && apps.removed_associations@ == st.1.1 && apps.default_apps@ == st.1.2
            }),
        decreases nl - i,
    {
        let ghost l = lv[i as int];
        let ghost sect0 = sect;
        let ghost t0 = (
            apps.added_associations@,
            apps.removed_associations@,
            apps.default_apps@,
        );
        let line = &lines[i];
        proof {
            assert(line@ == l);
        }
        let llen = line.len();
        if llen >= 2 && line[0] == 0x5b && line[llen - 1] == 0x5d {
            let name = copy_range(line, 1, llen - 1);
            proof {
                assert(name@ == l.subrange(1, l.len() - 1));
            }
            if eq_bytes(&name, &added_nm) {
                sect = Section::Added;
            } else if eq_bytes(&name, &removed_nm) {
                sect = Section::Removed;
            } else if eq_bytes(&name, &defaults_nm) {
                sect = Section::Defaults;
            } else {
                sect = Section::Other;
            }
        } else {
            match find_eq(line) {
                Some(ep) => {
                    let key = copy_range(line, 0, ep);
                    let value = copy_range(line, ep + 1, llen);
                    proof {
                        assert(key@ =~= l.take(ep as int));
                        assert(value@ =~= l.skip(ep as int + 1));
                    }
                    let segs = split_bytes(&value, 0x3b);
                    let ghost sv = vecs_view(segs@);
                    let mut toks: Vec<Handler> = Vec::new();
                    proof {
                        assert(sv.take(0) =~= Seq::<Seq<u8>>::empty());
                        assert(hl_view(toks@) =~= Seq::<Seq<u8>>::empty());
                        assert(clean_tokens(sv.take(0), Seq::empty())
                            == Seq::<Seq<u8>>::empty());
                    }
                    let ns = segs.len();
                    let mut j: usize = 0;
                    while j < ns
                        invariant
                            ns == segs@.len(),
                            j <= ns,
                            sv == vecs_view(segs@),
                            hl_view(toks@) == clean_tokens(sv.take(j as int), Seq::empty()),
                        decreases ns - j,
                    {
                        let hb = clone_bytes(&segs[j]);
                        proof {
                            assert(hb@ == sv[j as int]);
                        }
                        let ghost pre = hl_view(toks@);
                        match Handler::from_bytes(hb) {
                            Some(h) => {
                                if !toks_contains(&toks, &h) {
                                    toks.push(h);
                                    proof {
                                        assert(hl_view(toks@) =~= pre.push(sv[j as int]));
                                    }
                                }
                            },
                            None => {},
                        }
                        proof {
                            assert(sv.take(j as int).push(sv[j as int]) =~= sv.take(
                                j as int + 1,
                            ));
                            lemma_clean_snoc(sv.take(j as int), sv[j as int], Seq::empty());
                        }
                        j = j + 1;
                    }
                    proof {
                        assert(sv.take(ns as int) =~= sv);
                    }
                    if toks.len() > 0 {
                        match MimeId::parse(key) {
                            Ok(m) => {
                                proof {
                                    lemma_clean_tokens_wf(sv, Seq::empty());
                                    assert(hlist_wf(hl_view(toks@)));
                                }
                                let hl = HandlerList::from_vec(toks);
                                match sect {
                                    Section::Added => {
                                        apps.added_associations.insert(m, hl);
                                    },
                                    Section::Removed => {
                                        apps.removed_associations.insert(m, hl);
                                    },
                                    Section::Defaults => {
                                        apps.default_apps.insert(m, hl);
                                    },
                                    Section::Other => {},
                                }
                            },
                            Err(_) => {},
                        }
                    }
                },
                None => {},
            }
        }
        proof {
            assert(lv.take(i as int).push(l) =~= lv.take(i as int + 1));
            lemma_parse_lines_snoc(
                lv.take(i as int),
                l,
                Section::Other,
                (
                    Seq::<(Seq<u8>, Seq<Seq<u8>>)>::empty(),
                    Seq::<(Seq<u8>, Seq<Seq<u8>>)>::empty(),
                    Seq::<(Seq<u8>, Seq<Seq<u8>>)>::empty(),
                ),
            );
            let st = process_line(sect0, t0, l);
            assert(sect == st.0 && apps.added_associations@ == st.1.0
                && apps.removed_associations@ == st.1.1 && apps.default_apps@ == st.1.2);
        }
        i = i + 1;
    }
    proof {
        assert(lv.take(nl as int) =~= lv);
    }
    apps
}


/// A valid MIME identifier contains none of the grammar's separators.
proof fn lemma_mime_no_separators(k: Seq<u8>)
    requires
        mime_valid(k),
    ensures
        forall|i: int| 0 <= i < k.len() ==> k[i] != 0x3d && k[i] != 0x3b && k[i] != 0x0a,
{
    let s = choose|s: int|
        0 <= s < k.len() && #[trigger] k[s] == 0x2f && crate::ident::mime_part_valid(k.take(s))
            && crate::ident::mime_part_valid(k.skip(s + 1));
    assert forall|i: int| 0 <= i < k.len() implies k[i] != 0x3d && k[i] != 0x3b && k[i]
        != 0x0a by {
        if i < s {
            assert(k.take(s)[i] == k[i]);
            assert(crate::ident::mime_byte(k[i]));
        } else if i > s {
            assert(k.skip(s + 1)[i - s - 1] == k[i]);
            assert(crate::ident::mime_byte(k[i]));
        }
    }
}

/// Splitting at a separator that the prefix avoids peels off the prefix.
proof fn lemma_split_concat(x: Seq<u8>, rest: Seq<u8>, sep: u8)
    requires
        forall|i: int| 0 <= i < x.len() ==> x[i] != sep,
    ensures
        split_on(x + seq![sep] + rest, sep) == seq![x] + split_on(rest, sep),
    decreases x.len(),
{
    let whole = x + seq![sep] + rest;
    if x.len() == 0 {
        assert(whole[0] == sep);
        assert(whole.skip(1) =~= rest);
        assert(split_on(whole, sep) == seq![Seq::<u8>::empty()] + split_on(rest, sep));
        assert(split_on(whole, sep) =~~= seq![x] + split_on(rest, sep));
    } else {
        assert(whole[0] == x[0] && x[0] != sep);
        assert(whole.skip(1) =~= x.skip(1) + seq![sep] + rest);
        assert(forall|i: int| 0 <= i < x.skip(1).len() ==> x.skip(1)[i] == x[i + 1]);
        lemma_split_concat(x.skip(1), rest, sep);
        let r = split_on(whole.skip(1), sep);
        assert(r == seq![x.skip(1)] + split_on(rest, sep));
        lemma_split_on_nonempty(rest, sep);
        assert(r[0] == x.skip(1));
        assert(r.skip(1) =~= split_on(rest, sep));
        assert(split_on(whole, sep) == seq![seq![whole[0]] + r[0]] + r.skip(1));
        assert(seq![x[0]] + x.skip(1) =~= x);
        assert(split_on(whole, sep) =~~= seq![x] + split_on(rest, sep));
    }
}

/// Splitting a rendered handler list on `;` gives back the handlers, plus
/// one empty trailing segment.
proof fn lemma_split_rendered(v: Seq<Seq<u8>>)
    requires
        forall|i: int| 0 <= i < v.len() ==> handler_valid(#[trigger] v[i]),
    ensures
        split_on(render_handlers(v), 0x3b) == v + seq![Seq::<u8>::empty()],
    decreases v.len(),
{
    if v.len() == 0 {
        assert(render_handlers(v).len() == 0);
        assert(split_on(render_handlers(v), 0x3b) =~= v + seq![Seq::<u8>::empty()]);
    } else {
        assert(forall|i: int| 0 <= i < v.skip(1).len() ==> v.skip(1)[i] == v[i + 1]);
        lemma_split_rendered(v.skip(1));
        assert(render_handlers(v) == v[0] + seq![0x3bu8] + render_handlers(v.skip(1)));
        assert(forall|i: int| 0 <= i < v[0].len() ==> v[0][i] != 0x3b);
        lemma_split_concat(v[0], render_handlers(v.skip(1)), 0x3b);
        assert(split_on(render_handlers(v), 0x3b) =~= v + seq![Seq::<u8>::empty()]);
    }
}

/// Cleaning a list of valid, pairwise distinct tokens returns it unchanged.
proof fn lemma_clean_identity(v: Seq<Seq<u8>>, acc: Seq<Seq<u8>>)
    requires
        forall|i: int| 0 <= i < v.len() ==> handler_valid(#[trigger] v[i]),
        forall|i: int, j: int| 0 <= i < j < v.len() ==> v[i] != v[j],
        forall|i: int| 0 <= i < v.len() ==> !acc.contains(#[trigger] v[i]),
    ensures
        clean_tokens(v, acc) == acc + v,
    decreases v.len(),
{
    if v.len() == 0 {
        assert(clean_tokens(v, acc) =~= acc + v);
    } else {
        assert(!acc.contains(v[0]));
        let acc2 = acc.push(v[0]);
        assert(clean_tokens(v, acc) == clean_tokens(v.skip(1), acc2));
        assert(forall|i: int| 0 <= i < v.skip(1).len() ==> v.skip(1)[i] == v[i + 1]);
        assert forall|i: int| 0 <= i < v.skip(1).len() implies !acc2.contains(
            #[trigger] v.skip(1)[i],
        ) by {
            if acc2.contains(v.skip(1)[i]) {
                let j = choose|j: int| 0 <= j < acc2.len() && acc2[j] == v.skip(1)[i];
                if j < acc.len() {
                    assert(acc[j] == v[i + 1]);
                    assert(acc.contains(v[i + 1]));
                } else {
                    assert(v[0] == v[i + 1]);
                }
            }
        }
        lemma_clean_identity(v.skip(1), acc2);
        assert(acc2 + v.skip(1) =~= acc + v);
    }
}

/// Round trip of one data line: parsing the rendered line of a well-formed
/// entry yields exactly that entry's key and handler list.
pub proof fn lemma_line_round_trip(k: Seq<u8>, v: Seq<Seq<u8>>)
    requires
        mime_valid(k),
        hlist_wf(v),
    ensures
        parse_property(k + seq![0x3du8] + render_handlers(v)) == Some((k, v)),
{
    let line = k + seq![0x3du8] + render_handlers(v);
    lemma_mime_no_separators(k);
    assert(line[k.len() as int] == 0x3d);
    assert(forall|i: int| 0 <= i < k.len() ==> line[i] == k[i]);
    lemma_first_eq_at(line, k.len() as int);
    assert(line.take(k.len() as int) =~= k);
    assert(line.skip(k.len() as int + 1) =~= render_handlers(v));
    lemma_split_rendered(v);
    let segs = v + seq![Seq::<u8>::empty()];
    assert(v.push(Seq::<u8>::empty()) =~= segs);
    lemma_clean_snoc(v, Seq::<u8>::empty(), Seq::<Seq<u8>>::empty());
    assert(forall|i: int|
        0 <= i < v.len() ==> !Seq::<Seq<u8>>::empty().contains(#[trigger] v[i]));
    lemma_clean_identity(v, Seq::<Seq<u8>>::empty());
    assert(Seq::<Seq<u8>>::empty() + v =~= v);
    assert(!handler_valid(Seq::<u8>::empty()));
    assert(clean_tokens(segs, Seq::<Seq<u8>>::empty()) == v);
}

} // verus!
