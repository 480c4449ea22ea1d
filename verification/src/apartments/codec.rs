//! The persisted text format of a building and its codec.
//!
//! A building is written as one record per line: a `floors:` header, a
//! `- number:` line per floor, an `apartments:` header, and four lines
//! per apartment (`code`, `floor`, `door`, `occupied`). Empty record
//! lists are written as `[]`; line breaks and backslashes in stored
//! values are escaped, so every value fits on its line. The writer emits
//! one canonical text for each building, and reading a written text back
//! yields the building it was written from.
//!
//! The reader is forward-compatible: unknown fields — extra top-level
//! entries around the floors list, extra field lines in a floor or an
//! apartment record — are skipped. The known fields must stand in their
//! written order; text that breaks the record grammar itself fails the
//! read, and the loader then falls back to the default building.

use vstd::prelude::*;
use vstd::string::StringExecFns;

use crate::apartments::model::{Apartment, Building, Floor, StoreError};
use crate::apartments::text::{
    dec_chars, digit_char, digit_val, digits_val, is_digit_char, push_char, push_dec, str_chars,
};

verus! {

/// The plain view of an apartment: code, floor, door, occupancy.
pub type AptData = (Seq<char>, u16, Seq<char>, bool);

/// The plain view of a floor: its number and its apartments.
pub type FloorData = (u16, Seq<AptData>);

/// The plain view of an apartment record.
pub open spec fn apt_data(a: Apartment) -> AptData {
    (a.code@, a.floor, a.door@, a.occupied)
}

/// The plain view of a floor record.
pub open spec fn floor_data(f: Floor) -> FloorData {
    (f.number, f.apartments@.map_values(|a: Apartment| apt_data(a)))
}

/// The plain view of a whole building.
pub open spec fn building_data(b: Building) -> Seq<FloorData> {
    b.floors@.map_values(|f: Floor| floor_data(f))
}

/// `s` holds no line break, so it fits on one line of the format.
pub open spec fn line_safe(s: Seq<char>) -> bool {
    forall|j: int| 0 <= j < s.len() ==> s[j] != '\n'
}

/// The escaping of one character of a stored text value.
pub open spec fn esc_char(c: char) -> Seq<char> {
    if c == '\\' {
        seq!['\\', '\\']
    } else if c == '\n' {
        seq!['\\', 'n']
    } else {
        seq![c]
    }
}

/// A text value as stored: line breaks and the escape character itself
/// are escaped, so every value fits on one line.
pub open spec fn esc(s: Seq<char>) -> Seq<char>
    decreases s.len(),
{
    if s.len() == 0 {
        Seq::empty()
    } else {
        esc_char(s[0]) + esc(s.skip(1))
    }
}

/// The reading back of a stored text value.
pub open spec fn unesc(s: Seq<char>) -> Seq<char>
    decreases s.len(),
{
    if s.len() == 0 {
        Seq::empty()
    } else if s[0] == '\\' && s.len() >= 2 {
        (if s[1] == 'n' {
            seq!['\n']
        } else {
            seq![s[1]]
        }) + unesc(s.skip(2))
    } else {
        seq![s[0]] + unesc(s.skip(1))
    }
}

pub open spec fn lit_doc_hdr() -> Seq<char> {
    seq!['f', 'l', 'o', 'o', 'r', 's', ':', '\n']
}

pub open spec fn lit_doc_empty() -> Seq<char> {
    seq!['f', 'l', 'o', 'o', 'r', 's', ':', ' ', '[', ']', '\n']
}

pub open spec fn lit_number() -> Seq<char> {
    seq!['-', ' ', 'n', 'u', 'm', 'b', 'e', 'r', ':', ' ']
}

pub open spec fn lit_apts_hdr() -> Seq<char> {
    seq![' ', ' ', 'a', 'p', 'a', 'r', 't', 'm', 'e', 'n', 't', 's', ':', '\n']
}

pub open spec fn lit_apts_empty() -> Seq<char> {
    seq![' ', ' ', 'a', 'p', 'a', 'r', 't', 'm', 'e', 'n', 't', 's', ':', ' ', '[', ']', '\n']
}

pub open spec fn lit_code() -> Seq<char> {
    seq![' ', ' ', '-', ' ', 'c', 'o', 'd', 'e', ':', ' ']
}

pub open spec fn lit_floor() -> Seq<char> {
    seq![' ', ' ', ' ', ' ', 'f', 'l', 'o', 'o', 'r', ':', ' ']
}

pub open spec fn lit_door() -> Seq<char> {
    seq![' ', ' ', ' ', ' ', 'd', 'o', 'o', 'r', ':', ' ']
}

pub open spec fn lit_occupied() -> Seq<char> {
    seq![' ', ' ', ' ', ' ', 'o', 'c', 'c', 'u', 'p', 'i', 'e', 'd', ':', ' ']
}

pub open spec fn lit_true() -> Seq<char> {
    seq!['t', 'r', 'u', 'e']
}

pub open spec fn lit_false() -> Seq<char> {
    seq!['f', 'a', 'l', 's', 'e']
}

pub open spec fn nl() -> Seq<char> {
    seq!['\n']
}

pub open spec fn lit_floors_key() -> Seq<char> {
    seq!['f', 'l', 'o', 'o', 'r', 's', ':']
}

pub open spec fn lit_apts_key() -> Seq<char> {
    seq![' ', ' ', 'a', 'p', 'a', 'r', 't', 'm', 'e', 'n', 't', 's', ':']
}

pub open spec fn lit_item2() -> Seq<char> {
    seq![' ', ' ', '-', ' ']
}

pub open spec fn lit_one_sp() -> Seq<char> {
    seq![' ']
}

pub open spec fn lit_two_sp() -> Seq<char> {
    seq![' ', ' ']
}

pub open spec fn lit_four_sp() -> Seq<char> {
    seq![' ', ' ', ' ', ' ']
}

/// The text of a boolean value.
pub open spec fn yaml_bool(b: bool) -> Seq<char> {
    if b {
        lit_true()
    } else {
        lit_false()
    }
}

/// The four lines of one apartment record.
pub open spec fn yaml_apt(a: AptData) -> Seq<char> {
    lit_code() + esc(a.0) + nl() + lit_floor() + dec_chars(a.1 as nat) + nl() + lit_door() + esc(
        a.2,
    ) + nl() + lit_occupied() + yaml_bool(a.3) + nl()
}

/// The records of a list of apartments, in order.
pub open spec fn yaml_apts(s: Seq<AptData>) -> Seq<char>
    decreases s.len(),
{
    if s.len() == 0 {
        Seq::empty()
    } else {
        yaml_apt(s[0]) + yaml_apts(s.skip(1))
    }
}

/// The lines of one floor record.
pub open spec fn yaml_floor(f: FloorData) -> Seq<char> {
    lit_number() + dec_chars(f.0 as nat) + nl() + if f.1.len() == 0 {
        lit_apts_empty()
    } else {
        lit_apts_hdr() + yaml_apts(f.1)
    }
}

/// The records of a list of floors, in order.
pub open spec fn yaml_floors(s: Seq<FloorData>) -> Seq<char>
    decreases s.len(),
{
    if s.len() == 0 {
        Seq::empty()
    } else {
        yaml_floor(s[0]) + yaml_floors(s.skip(1))
    }
}

/// The whole persisted document of a building's data.
pub open spec fn yaml_doc(fls: Seq<FloorData>) -> Seq<char> {
    if fls.len() == 0 {
        lit_doc_empty()
    } else {
        lit_doc_hdr() + yaml_floors(fls)
    }
}

/// The persisted text of a building.
pub open spec fn yaml_building(b: Building) -> Seq<char> {
    yaml_doc(building_data(b))
}

/// Appending one apartment appends its record.
proof fn lemma_yaml_apts_push(s: Seq<AptData>, a: AptData)
    ensures
        yaml_apts(s.push(a)) == yaml_apts(s) + yaml_apt(a),
    decreases s.len(),
{
    if s.len() == 0 {
        assert(s.push(a).skip(1) =~= Seq::<AptData>::empty());
        assert(yaml_apt(a) + yaml_apts(Seq::empty()) =~= yaml_apt(a));
        assert(yaml_apts(s) + yaml_apt(a) =~= yaml_apt(a));
    } else {
        assert(s.push(a).skip(1) =~= s.skip(1).push(a));
        lemma_yaml_apts_push(s.skip(1), a);
        assert(yaml_apt(s[0]) + (yaml_apts(s.skip(1)) + yaml_apt(a)) =~= (yaml_apt(s[0])
            + yaml_apts(s.skip(1))) + yaml_apt(a));
    }
}

/// Appending one floor appends its record.
proof fn lemma_yaml_floors_push(s: Seq<FloorData>, f: FloorData)
    ensures
        yaml_floors(s.push(f)) == yaml_floors(s) + yaml_floor(f),
    decreases s.len(),
{
    if s.len() == 0 {
        assert(s.push(f).skip(1) =~= Seq::<FloorData>::empty());
        assert(yaml_floor(f) + yaml_floors(Seq::empty()) =~= yaml_floor(f));
        assert(yaml_floors(s) + yaml_floor(f) =~= yaml_floor(f));
    } else {
        assert(s.push(f).skip(1) =~= s.skip(1).push(f));
        lemma_yaml_floors_push(s.skip(1), f);
        assert(yaml_floor(s[0]) + (yaml_floors(s.skip(1)) + yaml_floor(f)) =~= (yaml_floor(s[0])
            + yaml_floors(s.skip(1))) + yaml_floor(f));
    }
}

/// Appends the literal `lit` to `out`, identifying its view.
fn push_lit(out: &mut String, lit: &str)
    ensures
        final(out)@ == old(out)@ + lit@,
{
    out.append(lit);
}

/// Escaping one more character extends the escaped value.
proof fn lemma_esc_push(s: Seq<char>, c: char)
    ensures
        esc(s.push(c)) == esc(s) + esc_char(c),
    decreases s.len(),
{
    if s.len() == 0 {
        assert(s.push(c)[0] == c);
        assert(s.push(c).skip(1) =~= Seq::<char>::empty());
        assert(esc_char(c) + esc(Seq::<char>::empty()) =~= esc_char(c));
        assert(esc(s) + esc_char(c) =~= esc_char(c));
    } else {
        assert(s.push(c)[0] == s[0]);
        assert(s.push(c).skip(1) =~= s.skip(1).push(c));
        lemma_esc_push(s.skip(1), c);
        assert(esc_char(s[0]) + (esc(s.skip(1)) + esc_char(c)) =~= (esc_char(s[0]) + esc(
            s.skip(1),
        )) + esc_char(c));
    }
}

/// An escaped value holds no line break.
proof fn lemma_esc_line_safe(s: Seq<char>)
    ensures
        line_safe(esc(s)),
    decreases s.len(),
{
    if s.len() > 0 {
        lemma_esc_line_safe(s.skip(1));
        let h = esc_char(s[0]);
        assert forall|j: int| 0 <= j < esc(s).len() implies esc(s)[j] != '\n' by {
            if j < h.len() {
                assert(esc(s)[j] == h[j]);
            } else {
                assert(esc(s)[j] == esc(s.skip(1))[j - h.len()]);
            }
        }
    }
}

/// Reading an escaped value back yields the value.
proof fn lemma_unesc_esc(s: Seq<char>)
    ensures
        unesc(esc(s)) == s,
    decreases s.len(),
{
    if s.len() == 0 {
        assert(unesc(esc(s)) =~= s);
    } else {
        lemma_unesc_esc(s.skip(1));
        let h = esc_char(s[0]);
        let t = esc(s.skip(1));
        if s[0] == '\\' || s[0] == '\n' {
            assert((h + t)[0] == '\\');
            assert((h + t)[1] == h[1]);
            assert((h + t).skip(2) =~= t);
            assert(unesc(h + t) == seq![s[0]] + unesc(t));
        } else {
            assert((h + t)[0] == s[0]);
            assert((h + t).skip(1) =~= t);
        }
        assert(seq![s[0]] + s.skip(1) =~= s);
    }
}

/// Appends the escaped form of `v` to `out`.
fn push_escaped(out: &mut String, v: &str)
    ensures
        final(out)@ == old(out)@ + esc(v@),
{
    let cs = str_chars(v);
    proof {
        assert(v@.take(0) =~= Seq::<char>::empty());
        assert(out@ =~= out@ + esc(v@.take(0)));
    }
    let mut i: usize = 0;
    while i < cs.len()
        invariant
            i <= cs@.len(),
            cs@ == v@,
            out@ == old(out)@ + esc(v@.take(i as int)),
        decreases cs@.len() - i,
    {
        let c = cs[i];
        if c == '\\' {
            push_char(out, '\\');
            push_char(out, '\\');
        } else if c == '\n' {
            push_char(out, '\\');
            push_char(out, 'n');
        } else {
            push_char(out, c);
        }
        proof {
            assert(v@.take(i + 1) =~= v@.take(i as int).push(v@[i as int]));
            lemma_esc_push(v@.take(i as int), v@[i as int]);
            assert(out@ =~= old(out)@ + esc(v@.take(i + 1)));
        }
        i += 1;
    }
    proof {
        assert(v@.take(v@.len() as int) =~= v@);
    }
}

/// Appends one apartment record to `out`.
fn push_apt(out: &mut String, a: &Apartment)
    ensures
        final(out)@ == old(out)@ + yaml_apt(apt_data(*a)),
{
    push_lit(out, "  - code: ");
    push_escaped(out, a.code.as_str());
    push_lit(out, "\n    floor: ");
    push_dec(out, a.floor);
    push_lit(out, "\n    door: ");
    push_escaped(out, a.door.as_str());
    push_lit(out, "\n    occupied: ");
    if a.occupied {
        push_lit(out, "true");
    } else {
        push_lit(out, "false");
    }
    push_lit(out, "\n");
    proof {
        reveal_strlit("  - code: ");
        reveal_strlit("\n    floor: ");
        reveal_strlit("\n    door: ");
        reveal_strlit("\n    occupied: ");
        reveal_strlit("true");
        reveal_strlit("false");
        reveal_strlit("\n");
        assert(final(out)@ =~= old(out)@ + yaml_apt(apt_data(*a)));
    }
}

/// Appends one floor record to `out`.
fn push_floor(out: &mut String, f: &Floor)
    ensures
        final(out)@ == old(out)@ + yaml_floor(floor_data(*f)),
{
    push_lit(out, "- number: ");
    push_dec(out, f.number);
    push_lit(out, "\n");
    if f.apartments.len() == 0 {
        push_lit(out, "  apartments: []\n");
        proof {
            reveal_strlit("- number: ");
            reveal_strlit("\n");
            reveal_strlit("  apartments: []\n");
            assert(final(out)@ =~= old(out)@ + yaml_floor(floor_data(*f)));
        }
    } else {
        push_lit(out, "  apartments:\n");
        let ghost base = out@;
        let mut j: usize = 0;
        while j < f.apartments.len()
            invariant
                j <= f.apartments@.len(),
                out@ == base + yaml_apts(
                    f.apartments@.map_values(|a: Apartment| apt_data(a)).take(j as int),
                ),
            decreases f.apartments@.len() - j,
        {
            let ghost data = f.apartments@.map_values(|a: Apartment| apt_data(a));
            push_apt(out, &f.apartments[j]);
            proof {
                assert(data.take(j + 1) =~= data.take(j as int).push(data[j as int]));
                lemma_yaml_apts_push(data.take(j as int), data[j as int]);
                assert(out@ =~= base + yaml_apts(data.take(j + 1)));
            }
            j += 1;
        }
        proof {
            let data = f.apartments@.map_values(|a: Apartment| apt_data(a));
            assert(data.take(data.len() as int) =~= data);
            reveal_strlit("- number: ");
            reveal_strlit("\n");
            reveal_strlit("  apartments:\n");
            assert(final(out)@ =~= old(out)@ + yaml_floor(floor_data(*f)));
        }
    }
}

impl Building {
    /// Writes the building as its canonical persisted text.
    pub fn to_text(&self) -> (t: String)
        ensures
            t@ == yaml_building(*self),
    {
        let mut out = String::new();
        if self.floors.len() == 0 {
            push_lit(&mut out, "floors: []\n");
            proof {
                reveal_strlit("floors: []\n");
                assert(out@ =~= yaml_building(*self));
            }
        } else {
            push_lit(&mut out, "floors:\n");
            let ghost base = out@;
            let mut i: usize = 0;
            while i < self.floors.len()
                invariant
                    i <= self.floors@.len(),
                    out@ == base + yaml_floors(
                        self.floors@.map_values(|f: Floor| floor_data(f)).take(i as int),
                    ),
                decreases self.floors@.len() - i,
            {
                let ghost data = self.floors@.map_values(|f: Floor| floor_data(f));
                push_floor(&mut out, &self.floors[i]);
                proof {
                    assert(data.take(i + 1) =~= data.take(i as int).push(data[i as int]));
                    lemma_yaml_floors_push(data.take(i as int), data[i as int]);
                    assert(out@ =~= base + yaml_floors(data.take(i + 1)));
                }
                i += 1;
            }
            proof {
                let data = self.floors@.map_values(|f: Floor| floor_data(f));
                assert(data.take(data.len() as int) =~= data);
                reveal_strlit("floors:\n");
                assert(out@ =~= yaml_building(*self));
            }
        }
        out
    }
}

/// Strips `lit` from the front of `s`, or fails.
pub open spec fn match_lit(s: Seq<char>, lit: Seq<char>) -> Option<Seq<char>> {
    if lit.len() <= s.len() && s.take(lit.len() as int) == lit {
        Some(s.skip(lit.len() as int))
    } else {
        None
    }
}

/// `s` begins with `lit`.
pub open spec fn starts_with(s: Seq<char>, lit: Seq<char>) -> bool {
    match_lit(s, lit) is Some
}

/// The index of the first line break in `s`, or -1.
pub open spec fn line_end(s: Seq<char>) -> int
    decreases s.len(),
{
    if s.len() == 0 {
        -1
    } else if s[0] == '\n' {
        0
    } else {
        let r = line_end(s.skip(1));
        if r < 0 {
            -1
        } else {
            1 + r
        }
    }
}

/// Reads one line up to its line break, which is consumed.
pub open spec fn parse_line(s: Seq<char>) -> Option<(Seq<char>, Seq<char>)> {
    let e = line_end(s);
    if e < 0 {
        None
    } else {
        Some((s.take(e), s.skip(e + 1)))
    }
}

/// Skips whole lines that begin with `pref` but with neither stop
/// marker: the unknown fields a forward-compatible reader ignores.
pub open spec fn skip_pref_lines(
    s: Seq<char>,
    pref: Seq<char>,
    stop1: Seq<char>,
    stop2: Seq<char>,
) -> Seq<char>
    decreases s.len(),
{
    if starts_with(s, pref) && !starts_with(s, stop1) && !starts_with(s, stop2) {
        match parse_line(s) {
            Some(p) => {
                if p.1.len() < s.len() {
                    skip_pref_lines(p.1, pref, stop1, stop2)
                } else {
                    s
                }
            },
            None => s,
        }
    } else {
        s
    }
}

/// Skips unknown top-level entries: a key line that is not the floors
/// entry, together with the indented lines of its value.
pub open spec fn skip_entries(s: Seq<char>) -> Seq<char>
    decreases s.len(),
{
    if s.len() > 0 && s[0] != ' ' && s[0] != '-' && !starts_with(s, lit_floors_key()) {
        match parse_line(s) {
            Some(p) => {
                let r = skip_pref_lines(p.1, lit_one_sp(), nl(), nl());
                if r.len() < s.len() {
                    skip_entries(r)
                } else {
                    s
                }
            },
            None => s,
        }
    } else {
        s
    }
}

/// The length of the leading digit run of `s`.
pub open spec fn digit_run(s: Seq<char>) -> int
    decreases s.len(),
{
    if s.len() == 0 {
        0
    } else if is_digit_char(s[0]) {
        1 + digit_run(s.skip(1))
    } else {
        0
    }
}

/// Reads a decimal numeral of at most five digits that fits in a `u16`.
pub open spec fn parse_num(s: Seq<char>) -> Option<(u16, Seq<char>)> {
    let k = digit_run(s);
    if k == 0 || k > 5 {
        None
    } else if digits_val(s.take(k)) > 0xffff {
        None
    } else {
        Some((digits_val(s.take(k)) as u16, s.skip(k)))
    }
}

/// Reads `true` or `false`.
pub open spec fn parse_bool(s: Seq<char>) -> Option<(bool, Seq<char>)> {
    match match_lit(s, lit_true()) {
        Some(r) => Some((true, r)),
        None => match match_lit(s, lit_false()) {
            Some(r) => Some((false, r)),
            None => None,
        },
    }
}

/// Reads one apartment record: its four known fields in their stored
/// order, with unknown fields of the record skipped wherever they stand.
pub open spec fn parse_apt(s: Seq<char>) -> Option<(AptData, Seq<char>)> {
    match match_lit(s, lit_code()) {
        None => None,
        Some(s1) => match parse_line(s1) {
            None => None,
            Some((code, s2)) => {
                let s2b = skip_pref_lines(s2, lit_four_sp(), lit_floor(), lit_floor());
                match match_lit(s2b, lit_floor()) {
                    None => None,
                    Some(s3) => match parse_num(s3) {
                        None => None,
                        Some((fl, s4)) => match match_lit(s4, nl()) {
                            None => None,
                            Some(s5) => {
                                let s5b = skip_pref_lines(s5, lit_four_sp(), lit_door(), lit_door());
                                match match_lit(s5b, lit_door()) {
                                    None => None,
                                    Some(s6) => match parse_line(s6) {
                                        None => None,
                                        Some((door, s7)) => {
                                            let s7b = skip_pref_lines(
                                                s7,
                                                lit_four_sp(),
                                                lit_occupied(),
                                                lit_occupied(),
                                            );
                                            match match_lit(s7b, lit_occupied()) {
                                                None => None,
                                                Some(s8) => match parse_bool(s8) {
                                                    None => None,
                                                    Some((oc, s9)) => match match_lit(s9, nl()) {
                                                        None => None,
                                                        Some(s10) => {
                                                            let s10b = skip_pref_lines(
                                                                s10,
                                                                lit_four_sp(),
                                                                nl(),
                                                                nl(),
                                                            );
                                                            Some(
                                                                (
                                                                    (
                                                                        unesc(code),
                                                                        fl,
                                                                        unesc(door),
                                                                        oc,
                                                                    ),
                                                                    s10b,
                                                                ),
                                                            )
                                                        },
                                                    },
                                                },
                                            }
                                        },
                                    },
                                }
                            },
                        },
                    },
                }
            },
        },
    }
}

/// Reads apartment records as long as one starts at the front.
pub open spec fn parse_apts(s: Seq<char>) -> (Seq<AptData>, Seq<char>)
    decreases s.len(),
{
    match parse_apt(s) {
        None => (Seq::empty(), s),
        Some((a, r)) => {
            if r.len() < s.len() {
                let rest = parse_apts(r);
                (seq![a] + rest.0, rest.1)
            } else {
                (seq![a], r)
            }
        },
    }
}

/// Reads one floor record with its apartment list; unknown fields of
/// the floor record are skipped wherever they stand.
pub open spec fn parse_floor(s: Seq<char>) -> Option<(FloorData, Seq<char>)> {
    match match_lit(s, lit_number()) {
        None => None,
        Some(s1) => match parse_num(s1) {
            None => None,
            Some((n, s2)) => match match_lit(s2, nl()) {
                None => None,
                Some(s3) => {
                    let s3b = skip_pref_lines(s3, lit_two_sp(), lit_item2(), lit_apts_key());
                    match match_lit(s3b, lit_apts_empty()) {
                        Some(s4) => Some(
                            ((n, Seq::empty()), skip_pref_lines(s4, lit_two_sp(), lit_item2(), lit_apts_key())),
                        ),
                        None => match match_lit(s3b, lit_apts_hdr()) {
                            None => None,
                            Some(s4) => {
                                let r = parse_apts(s4);
                                Some(
                                    ((n, r.0), skip_pref_lines(r.1, lit_two_sp(), lit_item2(), lit_apts_key())),
                                )
                            },
                        },
                    }
                },
            },
        },
    }
}

/// Reads floor records as long as one starts at the front.
pub open spec fn parse_floors(s: Seq<char>) -> (Seq<FloorData>, Seq<char>)
    decreases s.len(),
{
    match parse_floor(s) {
        None => (Seq::empty(), s),
        Some((f, r)) => {
            if r.len() < s.len() {
                let rest = parse_floors(r);
                (seq![f] + rest.0, rest.1)
            } else {
                (seq![f], r)
            }
        },
    }
}

/// Reads a whole document: unknown top-level entries are skipped around
/// the floors entry; anything else left over fails the parse.
pub open spec fn parse_doc(s: Seq<char>) -> Option<Seq<FloorData>> {
    let s0 = skip_entries(s);
    match match_lit(s0, lit_doc_empty()) {
        Some(r) => if skip_entries(r).len() == 0 {
            Some(Seq::empty())
        } else {
            None
        },
        None => match match_lit(s0, lit_doc_hdr()) {
            None => None,
            Some(r) => {
                let p = parse_floors(r);
                if skip_entries(p.1).len() == 0 {
                    Some(p.0)
                } else {
                    None
                }
            },
        },
    }
}

/// Ten to the `k`.
pub open spec fn pow10(k: nat) -> nat
    decreases k,
{
    if k == 0 {
        1nat
    } else {
        10 * pow10((k - 1) as nat)
    }
}

/// A run of `k` digits is worth less than ten to the `k`.
proof fn lemma_digits_val_bound(t: Seq<char>)
    requires
        forall|j: int| 0 <= j < t.len() ==> is_digit_char(#[trigger] t[j]),
    ensures
        digits_val(t) < pow10(t.len()),
    decreases t.len(),
{
    if t.len() > 0 {
        assert(forall|j: int| 0 <= j < t.len() - 1 ==> is_digit_char(#[trigger] t.drop_last()[j]));
        lemma_digits_val_bound(t.drop_last());
        assert(digit_val(t.last()) <= 9);
        assert(digits_val(t.drop_last()) * 10 <= (pow10((t.len() - 1) as nat) - 1) * 10) by (nonlinear_arith)
            requires digits_val(t.drop_last()) <= pow10((t.len() - 1) as nat) - 1;
    }
}

proof fn lemma_line_end_at(t: Seq<char>, k: int)
    requires
        0 <= k < t.len(),
        t[k] == '\n',
        forall|m: int| 0 <= m < k ==> t[m] != '\n',
    ensures
        line_end(t) == k,
    decreases k,
{
    if k > 0 {
        assert(forall|m: int| 0 <= m < k - 1 ==> t.skip(1)[m] != '\n');
        lemma_line_end_at(t.skip(1), k - 1);
    }
}

proof fn lemma_line_end_none(t: Seq<char>)
    requires
        forall|m: int| 0 <= m < t.len() ==> t[m] != '\n',
    ensures
        line_end(t) == -1,
    decreases t.len(),
{
    if t.len() > 0 {
        assert(forall|m: int| 0 <= m < t.len() - 1 ==> t.skip(1)[m] != '\n');
        lemma_line_end_none(t.skip(1));
    }
}

proof fn lemma_line_end_bound(t: Seq<char>)
    ensures
        -1 <= line_end(t) < t.len(),
    decreases t.len(),
{
    if t.len() > 0 && t[0] != '\n' {
        lemma_line_end_bound(t.skip(1));
    }
}

proof fn lemma_digit_run_at(t: Seq<char>, k: int)
    requires
        0 <= k <= t.len(),
        forall|m: int| 0 <= m < k ==> is_digit_char(#[trigger] t[m]),
        k < t.len() ==> !is_digit_char(t[k]),
    ensures
        digit_run(t) == k,
    decreases k,
{
    if k > 0 {
        assert(forall|m: int| 0 <= m < k - 1 ==> is_digit_char(#[trigger] t.skip(1)[m]));
        lemma_digit_run_at(t.skip(1), k - 1);
    }
}

proof fn lemma_digit_run_bound(t: Seq<char>)
    ensures
        0 <= digit_run(t) <= t.len(),
    decreases t.len(),
{
    if t.len() > 0 && is_digit_char(t[0]) {
        lemma_digit_run_bound(t.skip(1));
    }
}

/// Skipping unknown lines never lengthens the text.
proof fn lemma_skip_pref_le(s: Seq<char>, pref: Seq<char>, stop1: Seq<char>, stop2: Seq<char>)
    ensures
        skip_pref_lines(s, pref, stop1, stop2).len() <= s.len(),
    decreases s.len(),
{
    if starts_with(s, pref) && !starts_with(s, stop1) && !starts_with(s, stop2) {
        if parse_line(s) is Some {
            let r = parse_line(s)->Some_0.1;
            if r.len() < s.len() {
                lemma_skip_pref_le(r, pref, stop1, stop2);
            }
        }
    }
}

/// Where the next line is a stop marker, or no skippable line starts,
/// nothing is skipped.
proof fn lemma_skip_pref_noop(s: Seq<char>, pref: Seq<char>, stop1: Seq<char>, stop2: Seq<char>)
    requires
        starts_with(s, stop1) || starts_with(s, stop2) || !starts_with(s, pref),
    ensures
        skip_pref_lines(s, pref, stop1, stop2) == s,
{
}

/// A parsed apartment record takes at least one character.
proof fn lemma_parse_apt_consumes(t: Seq<char>)
    ensures
        parse_apt(t) matches Some((a, r)) ==> r.len() < t.len(),
{
    if parse_apt(t) is Some {
        let s1 = match_lit(t, lit_code())->Some_0;
        lemma_line_end_bound(s1);
        if parse_line(s1) is Some {
            let s2 = parse_line(s1)->Some_0.1;
            let s2b = skip_pref_lines(s2, lit_four_sp(), lit_floor(), lit_floor());
            lemma_skip_pref_le(s2, lit_four_sp(), lit_floor(), lit_floor());
            if match_lit(s2b, lit_floor()) is Some {
                let s3 = match_lit(s2b, lit_floor())->Some_0;
                lemma_digit_run_bound(s3);
                if parse_num(s3) is Some {
                    let s4 = parse_num(s3)->Some_0.1;
                    if match_lit(s4, nl()) is Some {
                        let s5 = match_lit(s4, nl())->Some_0;
                        let s5b = skip_pref_lines(s5, lit_four_sp(), lit_door(), lit_door());
                        lemma_skip_pref_le(s5, lit_four_sp(), lit_door(), lit_door());
                        if match_lit(s5b, lit_door()) is Some {
                            let s6 = match_lit(s5b, lit_door())->Some_0;
                            lemma_line_end_bound(s6);
                            if parse_line(s6) is Some {
                                let s7 = parse_line(s6)->Some_0.1;
                                lemma_skip_pref_le(s7, lit_four_sp(), lit_occupied(), lit_occupied());
                                let s7b = skip_pref_lines(s7, lit_four_sp(), lit_occupied(), lit_occupied());
                                if match_lit(s7b, lit_occupied()) is Some {
                                    let s8 = match_lit(s7b, lit_occupied())->Some_0;
                                    if parse_bool(s8) is Some {
                                        let s9 = parse_bool(s8)->Some_0.1;
                                        if match_lit(s9, nl()) is Some {
                                            let s10 = match_lit(s9, nl())->Some_0;
                                            lemma_skip_pref_le(s10, lit_four_sp(), nl(), nl());
                                        }
                                    }
                                }
                            }
                        }
                    }
                }
            }
        }
    }
}

/// A parsed floor record takes at least one character.
proof fn lemma_parse_floor_consumes(t: Seq<char>)
    ensures
        parse_floor(t) matches Some((f, r)) ==> r.len() < t.len(),
{
    if parse_floor(t) is Some {
        let s1 = match_lit(t, lit_number())->Some_0;
        lemma_digit_run_bound(s1);
        if parse_num(s1) is Some {
            let s2 = parse_num(s1)->Some_0.1;
            if match_lit(s2, nl()) is Some {
                let s3 = match_lit(s2, nl())->Some_0;
                let s3b = skip_pref_lines(s3, lit_two_sp(), lit_item2(), lit_apts_key());
                lemma_skip_pref_le(s3, lit_two_sp(), lit_item2(), lit_apts_key());
                if match_lit(s3b, lit_apts_empty()) is Some {
                    let s4 = match_lit(s3b, lit_apts_empty())->Some_0;
                    lemma_skip_pref_le(s4, lit_two_sp(), lit_item2(), lit_apts_key());
                } else {
                    if match_lit(s3b, lit_apts_hdr()) is Some {
                        let s4 = match_lit(s3b, lit_apts_hdr())->Some_0;
                        lemma_parse_apts_shrinks(s4);
                        lemma_skip_pref_le(parse_apts(s4).1, lit_two_sp(), lit_item2(), lit_apts_key());
                    }
                }
            }
        }
    }
}

/// The remainder of an apartment list never grows.
proof fn lemma_parse_apts_shrinks(t: Seq<char>)
    ensures
        parse_apts(t).1.len() <= t.len(),
    decreases t.len(),
{
    lemma_parse_apt_consumes(t);
    if parse_apt(t) is Some {
        let r = parse_apt(t)->Some_0.1;
        if r.len() < t.len() {
            lemma_parse_apts_shrinks(r);
        }
    }
}

/// Matches `lit` at position `i` of `s`.
fn p_lit(s: &Vec<char>, i: usize, lit: &str) -> (r: Option<usize>)
    requires
        i <= s@.len(),
    ensures
        match r {
            Some(j) => i <= j <= s@.len() && match_lit(s@.skip(i as int), lit@) == Some(
                s@.skip(j as int),
            ),
            None => match_lit(s@.skip(i as int), lit@) is None,
        },
{
    let lv = str_chars(lit);
    let slen = s.len();
    if slen - i < lv.len() {
        return None;
    }
    let mut k: usize = 0;
    while k < lv.len()
        invariant
            k <= lv@.len(),
            lv@ == lit@,
            slen == s@.len(),
            i <= s@.len(),
            lv@.len() <= s@.len() - i,
            forall|m: int| 0 <= m < k ==> s@.skip(i as int)[m] == lit@[m],
        decreases lv@.len() - k,
    {
        proof {
            assert(i + k < s@.len());
        }
        if s[i + k] != lv[k] {
            proof {
                let t = s@.skip(i as int);
                assert(t[k as int] == s@[i + k]);
                if lit@.len() <= t.len() && t.take(lit@.len() as int) == lit@ {
                    assert(t.take(lit@.len() as int)[k as int] == lit@[k as int]);
                }
            }
            return None;
        }
        k += 1;
    }
    proof {
        let t = s@.skip(i as int);
        assert(t.take(lit@.len() as int) =~= lit@);
        assert(t.skip(lit@.len() as int) =~= s@.skip(i + lit@.len()));
    }
    Some(i + lv.len())
}

/// Reads one line at position `i` of `s`, consuming its line break.
fn p_line(s: &Vec<char>, i: usize) -> (r: Option<(String, usize)>)
    requires
        i <= s@.len(),
    ensures
        match r {
            Some(p) => i <= p.1 <= s@.len() && parse_line(s@.skip(i as int)) == Some(
                (p.0@, s@.skip(p.1 as int)),
            ),
            None => parse_line(s@.skip(i as int)) is None,
        },
{
    let mut k: usize = i;
    while k < s.len()
        invariant
            i <= k <= s@.len(),
            forall|m: int| i <= m < k ==> s@[m] != '\n',
        decreases s@.len() - k,
    {
        if s[k] == '\n' {
            let mut line = String::new();
            let mut m: usize = i;
            while m < k
                invariant
                    i <= m <= k <= s@.len(),
                    line@ == s@.subrange(i as int, m as int),
                decreases k - m,
            {
                push_char(&mut line, s[m]);
                proof {
                    assert(s@.subrange(i as int, m as int).push(s@[m as int]) =~= s@.subrange(
                        i as int,
                        m + 1,
                    ));
                }
                m += 1;
            }
            proof {
                let t = s@.skip(i as int);
                assert(forall|q: int| 0 <= q < k - i ==> t[q] == s@[i + q] && s@[i + q] != '\n');
                assert(t[k - i] == '\n');
                lemma_line_end_at(t, k - i);
                assert(t.take(k - i) =~= s@.subrange(i as int, k as int));
                assert(t.skip(k - i + 1) =~= s@.skip(k + 1));
            }
            return Some((line, k + 1));
        }
        k += 1;
    }
    proof {
        let t = s@.skip(i as int);
        assert(forall|q: int| 0 <= q < t.len() ==> t[q] == s@[i + q] && s@[i + q] != '\n');
        lemma_line_end_none(t);
    }
    None
}

/// Reads a numeral at position `i` of `s`.
fn p_num(s: &Vec<char>, i: usize) -> (r: Option<(u16, usize)>)
    requires
        i <= s@.len(),
    ensures
        match r {
            Some(p) => i <= p.1 <= s@.len() && parse_num(s@.skip(i as int)) == Some(
                (p.0, s@.skip(p.1 as int)),
            ),
            None => parse_num(s@.skip(i as int)) is None,
        },
{
    let mut k: usize = i;
    while k < s.len()
        invariant
            i <= k <= s@.len(),
            forall|m: int| i <= m < k ==> is_digit_char(#[trigger] s@[m]),
        ensures
            i <= k <= s@.len(),
            forall|m: int| i <= m < k ==> is_digit_char(#[trigger] s@[m]),
            k < s@.len() ==> !is_digit_char(s@[k as int]),
        decreases s@.len() - k,
    {
        let c = s[k] as u32;
        if !(48 <= c && c <= 57) {
            break;
        }
        k += 1;
    }
    proof {
        let t = s@.skip(i as int);
        assert(forall|q: int| 0 <= q < k - i ==> t[q] == s@[i + q] && is_digit_char(s@[i + q]));
        if k < s@.len() {
            assert(t[k - i] == s@[k as int]);
        }
        lemma_digit_run_at(t, k - i);
    }
    let run = k - i;
    if run == 0 || run > 5 {
        return None;
    }
    let mut v: u32 = 0;
    let mut m: usize = i;
    while m < k
        invariant
            i <= m <= k <= s@.len(),
            k - i <= 5,
            forall|q: int| i <= q < k ==> is_digit_char(#[trigger] s@[q]),
            v == digits_val(s@.subrange(i as int, m as int)),
            v < pow10((m - i) as nat),
        decreases k - m,
    {
        let d = (s[m] as u32) - 48;
        proof {
            let pre = s@.subrange(i as int, m as int);
            assert(s@.subrange(i as int, m + 1).drop_last() =~= pre);
            assert(digits_val(s@.subrange(i as int, m + 1)) == digits_val(pre) * 10 + digit_val(
                s@[m as int],
            ));
            assert(pow10(((m + 1) - i) as nat) == 10 * pow10((m - i) as nat));
            assert(v * 10 + d < 10 * pow10((m - i) as nat)) by (nonlinear_arith)
                requires
                    v < pow10((m - i) as nat),
                    d <= 9,
            ;
            assert(pow10(0) == 1);
            assert(pow10(1) == 10);
            assert(pow10(2) == 100);
            assert(pow10(3) == 1000);
            assert(pow10(4) == 10000);
            assert(pow10(5) == 100000);
        }
        v = v * 10 + d;
        m += 1;
    }
    proof {
        let t = s@.skip(i as int);
        assert(t.take(k - i) =~= s@.subrange(i as int, k as int));
        assert(t.skip(k - i) =~= s@.skip(k as int));
    }
    if v > 0xffff {
        return None;
    }
    Some((v as u16, k))
}

/// Reads `true` or `false` at position `i` of `s`.
fn p_bool(s: &Vec<char>, i: usize) -> (r: Option<(bool, usize)>)
    requires
        i <= s@.len(),
    ensures
        match r {
            Some(p) => i <= p.1 <= s@.len() && parse_bool(s@.skip(i as int)) == Some(
                (p.0, s@.skip(p.1 as int)),
            ),
            None => parse_bool(s@.skip(i as int)) is None,
        },
{
    proof {
        reveal_strlit("true");
        reveal_strlit("false");
        assert("true"@ =~= lit_true());
        assert("false"@ =~= lit_false());
    }
    match p_lit(s, i, "true") {
        Some(j) => Some((true, j)),
        None => match p_lit(s, i, "false") {
            Some(j) => Some((false, j)),
            None => None,
        },
    }
}

/// True when the text at `i` begins with `lit`.
fn p_starts(s: &Vec<char>, i: usize, lit: &str) -> (b: bool)
    requires
        i <= s@.len(),
    ensures
        b == starts_with(s@.skip(i as int), lit@),
{
    match p_lit(s, i, lit) {
        Some(_) => true,
        None => false,
    }
}

/// Advances past one line, to just after its line break.
fn p_line_end(s: &Vec<char>, i: usize) -> (r: Option<usize>)
    requires
        i <= s@.len(),
    ensures
        match r {
            Some(j) => i <= j <= s@.len() && (parse_line(s@.skip(i as int)) matches Some(p) && p.1
                == s@.skip(j as int)),
            None => parse_line(s@.skip(i as int)) is None,
        },
{
    let mut k: usize = i;
    while k < s.len()
        invariant
            i <= k <= s@.len(),
            forall|m: int| i <= m < k ==> s@[m] != '\n',
        decreases s@.len() - k,
    {
        if s[k] == '\n' {
            proof {
                let t = s@.skip(i as int);
                assert(forall|q: int| 0 <= q < k - i ==> t[q] == s@[i + q] && s@[i + q] != '\n');
                assert(t[k - i] == '\n');
                lemma_line_end_at(t, k - i);
                assert(t.skip(k - i + 1) =~= s@.skip(k + 1));
            }
            return Some(k + 1);
        }
        k += 1;
    }
    proof {
        let t = s@.skip(i as int);
        assert(forall|q: int| 0 <= q < t.len() ==> t[q] == s@[i + q] && s@[i + q] != '\n');
        lemma_line_end_none(t);
    }
    None
}

/// Skips unknown field lines at position `i` of `s`.
fn p_skip_pref(s: &Vec<char>, i: usize, pref: &str, stop1: &str, stop2: &str) -> (j: usize)
    requires
        i <= s@.len(),
    ensures
        i <= j <= s@.len(),
        skip_pref_lines(s@.skip(i as int), pref@, stop1@, stop2@) == s@.skip(j as int),
{
    let mut cur: usize = i;
    loop
        invariant
            i <= cur <= s@.len(),
            skip_pref_lines(s@.skip(i as int), pref@, stop1@, stop2@) == skip_pref_lines(
                s@.skip(cur as int),
                pref@,
                stop1@,
                stop2@,
            ),
        decreases s@.len() - cur,
    {
        let ghost scur = s@.skip(cur as int);
        let c1 = p_starts(s, cur, pref);
        let c2 = p_starts(s, cur, stop1);
        let c3 = p_starts(s, cur, stop2);
        if !c1 || c2 || c3 {
            proof {
                assert(skip_pref_lines(scur, pref@, stop1@, stop2@) == scur);
            }
            return cur;
        }
        match p_line_end(s, cur) {
            Some(j) => {
                proof {
                    lemma_line_end_bound(scur);
                    assert(s@.skip(j as int).len() < scur.len());
                }
                cur = j;
            },
            None => {
                proof {
                    assert(skip_pref_lines(scur, pref@, stop1@, stop2@) == scur);
                }
                return cur;
            },
        }
    }
}

/// Skips unknown top-level entries at position `i` of `s`.
fn p_skip_entries(s: &Vec<char>, i: usize) -> (j: usize)
    requires
        i <= s@.len(),
    ensures
        i <= j <= s@.len(),
        skip_entries(s@.skip(i as int)) == s@.skip(j as int),
{
    let mut cur: usize = i;
    loop
        invariant
            i <= cur <= s@.len(),
            skip_entries(s@.skip(i as int)) == skip_entries(s@.skip(cur as int)),
        decreases s@.len() - cur,
    {
        proof {
            reveal_strlit("floors:");
            reveal_strlit(" ");
            reveal_strlit("\n");
            assert("floors:"@ =~= lit_floors_key());
            assert(" "@ =~= lit_one_sp());
            assert("\n"@ =~= nl());
        }
        let ghost scur = s@.skip(cur as int);
        if cur >= s.len() {
            proof {
                assert(skip_entries(scur) == scur);
            }
            return cur;
        }
        proof {
            assert(scur[0] == s@[cur as int]);
        }
        let c = s[cur];
        let key = c != ' ' && c != '-' && !p_starts(s, cur, "floors:");
        if !key {
            proof {
                assert(skip_entries(scur) == scur);
            }
            return cur;
        }
        match p_line_end(s, cur) {
            Some(j) => {
                let j2 = p_skip_pref(s, j, " ", "\n", "\n");
                proof {
                    lemma_line_end_bound(scur);
                    lemma_skip_pref_le(s@.skip(j as int), lit_one_sp(), nl(), nl());
                    assert(s@.skip(j2 as int).len() < scur.len());
                }
                cur = j2;
            },
            None => {
                proof {
                    assert(skip_entries(scur) == scur);
                }
                return cur;
            },
        }
    }
}

/// Reads a stored text value back, undoing the escaping.
fn unescape(raw: &str) -> (r: String)
    ensures
        r@ == unesc(raw@),
{
    let cs = str_chars(raw);
    proof {
        assert(cs@.skip(0) =~= cs@);
    }
    unesc_from(&cs, 0)
}

fn unesc_from(cs: &Vec<char>, i: usize) -> (r: String)
    requires
        i <= cs@.len(),
    ensures
        r@ == unesc(cs@.skip(i as int)),
    decreases cs@.len() - i,
{
    let ghost t = cs@.skip(i as int);
    if i >= cs.len() {
        let r = String::new();
        proof {
            assert(t =~= Seq::<char>::empty());
            assert(r@ =~= unesc(t));
        }
        return r;
    }
    proof {
        assert(t[0] == cs@[i as int]);
    }
    let c = cs[i];
    if c == '\\' && i + 1 < cs.len() {
        proof {
            assert(t[1] == cs@[i + 1]);
            assert(t.skip(2) =~= cs@.skip(i + 2));
        }
        let d = cs[i + 1];
        let h: char = if d == 'n' {
            '\n'
        } else {
            d
        };
        let rest = unesc_from(cs, i + 2);
        let mut out = String::new();
        push_char(&mut out, h);
        out.append(rest.as_str());
        proof {
            assert(out@ =~= unesc(t));
        }
        out
    } else {
        proof {
            assert(t.skip(1) =~= cs@.skip(i + 1));
        }
        let rest = unesc_from(cs, i + 1);
        let mut out = String::new();
        push_char(&mut out, c);
        out.append(rest.as_str());
        proof {
            assert(out@ =~= unesc(t));
        }
        out
    }
}

/// Reads one apartment record at position `i` of `s`.
fn p_apt(s: &Vec<char>, i: usize) -> (r: Option<(Apartment, usize)>)
    requires
        i <= s@.len(),
    ensures
        match r {
            Some(p) => i <= p.1 <= s@.len() && parse_apt(s@.skip(i as int)) == Some(
                (apt_data(p.0), s@.skip(p.1 as int)),
            ),
            None => parse_apt(s@.skip(i as int)) is None,
        },
{
    proof {
        reveal_strlit("  - code: ");
        reveal_strlit("    floor: ");
        reveal_strlit("    door: ");
        reveal_strlit("    occupied: ");
        reveal_strlit("    ");
        reveal_strlit("\n");
        assert("  - code: "@ =~= lit_code());
        assert("    floor: "@ =~= lit_floor());
        assert("    door: "@ =~= lit_door());
        assert("    occupied: "@ =~= lit_occupied());
        assert("    "@ =~= lit_four_sp());
        assert("\n"@ =~= nl());
    }
    let j1 = match p_lit(s, i, "  - code: ") {
        Some(j) => j,
        None => {
            return None;
        },
    };
    let (code_raw, j2) = match p_line(s, j1) {
        Some(p) => p,
        None => {
            return None;
        },
    };
    let j2b = p_skip_pref(s, j2, "    ", "    floor: ", "    floor: ");
    let j3 = match p_lit(s, j2b, "    floor: ") {
        Some(j) => j,
        None => {
            return None;
        },
    };
    let (fl, j4) = match p_num(s, j3) {
        Some(p) => p,
        None => {
            return None;
        },
    };
    let j5 = match p_lit(s, j4, "\n") {
        Some(j) => j,
        None => {
            return None;
        },
    };
    let j5b = p_skip_pref(s, j5, "    ", "    door: ", "    door: ");
    let j6 = match p_lit(s, j5b, "    door: ") {
        Some(j) => j,
        None => {
            return None;
        },
    };
    let (door_raw, j7) = match p_line(s, j6) {
        Some(p) => p,
        None => {
            return None;
        },
    };
    let j7b = p_skip_pref(s, j7, "    ", "    occupied: ", "    occupied: ");
    let j8 = match p_lit(s, j7b, "    occupied: ") {
        Some(j) => j,
        None => {
            return None;
        },
    };
    let (oc, j9) = match p_bool(s, j8) {
        Some(p) => p,
        None => {
            return None;
        },
    };
    let j10 = match p_lit(s, j9, "\n") {
        Some(j) => j,
        None => {
            return None;
        },
    };
    let j10b = p_skip_pref(s, j10, "    ", "\n", "\n");
    let code = unescape(code_raw.as_str());
    let door = unescape(door_raw.as_str());
    Some((Apartment { code, floor: fl, door, occupied: oc }, j10b))
}

/// Reads apartment records at position `i` of `s` while one starts there.
fn p_apts(s: &Vec<char>, i: usize) -> (r: (Vec<Apartment>, usize))
    requires
        i <= s@.len(),
    ensures
        i <= r.1 <= s@.len(),
        parse_apts(s@.skip(i as int)) == (
            r.0@.map_values(|a: Apartment| apt_data(a)),
            s@.skip(r.1 as int),
        ),
{
    let mut out: Vec<Apartment> = Vec::new();
    let mut cur: usize = i;
    loop
        invariant
            i <= cur <= s@.len(),
            parse_apts(s@.skip(i as int)) == ({
                let rest = parse_apts(s@.skip(cur as int));
                (out@.map_values(|a: Apartment| apt_data(a)) + rest.0, rest.1)
            }),
        decreases s@.len() - cur,
    {
        let ghost scur = s@.skip(cur as int);
        match p_apt(s, cur) {
            None => {
                proof {
                    assert(parse_apts(scur) == (Seq::<AptData>::empty(), scur));
                    assert(out@.map_values(|a: Apartment| apt_data(a)) + Seq::<AptData>::empty()
                        =~= out@.map_values(|a: Apartment| apt_data(a)));
                }
                return (out, cur);
            },
            Some((a, j)) => {
                proof {
                    lemma_parse_apt_consumes(scur);
                }
                let ghost prev = out@;
                out.push(a);
                proof {
                    let f = |x: Apartment| apt_data(x);
                    let rest = parse_apts(s@.skip(j as int));
                    assert(parse_apts(scur) == (seq![apt_data(a)] + rest.0, rest.1));
                    assert(out@.map_values(f) =~= prev.map_values(f).push(apt_data(a)));
                    assert(prev.map_values(f).push(apt_data(a)) + rest.0 =~= prev.map_values(f) + (
                    seq![apt_data(a)] + rest.0));
                }
                cur = j;
            },
        }
    }
}

/// Reads one floor record at position `i` of `s`.
fn p_floor(s: &Vec<char>, i: usize) -> (r: Option<(Floor, usize)>)
    requires
        i <= s@.len(),
    ensures
        match r {
            Some(p) => i <= p.1 <= s@.len() && parse_floor(s@.skip(i as int)) == Some(
                (floor_data(p.0), s@.skip(p.1 as int)),
            ),
            None => parse_floor(s@.skip(i as int)) is None,
        },
{
    proof {
        reveal_strlit("- number: ");
        reveal_strlit("\n");
        reveal_strlit("  apartments: []\n");
        reveal_strlit("  apartments:\n");
        reveal_strlit("  apartments:");
        reveal_strlit("  - ");
        reveal_strlit("  ");
        assert("- number: "@ =~= lit_number());
        assert("\n"@ =~= nl());
        assert("  apartments: []\n"@ =~= lit_apts_empty());
        assert("  apartments:\n"@ =~= lit_apts_hdr());
        assert("  apartments:"@ =~= lit_apts_key());
        assert("  - "@ =~= lit_item2());
        assert("  "@ =~= lit_two_sp());
    }
    let j1 = match p_lit(s, i, "- number: ") {
        Some(j) => j,
        None => {
            return None;
        },
    };
    let (n, j2) = match p_num(s, j1) {
        Some(p) => p,
        None => {
            return None;
        },
    };
    let j3 = match p_lit(s, j2, "\n") {
        Some(j) => j,
        None => {
            return None;
        },
    };
    let j3b = p_skip_pref(s, j3, "  ", "  - ", "  apartments:");
    match p_lit(s, j3b, "  apartments: []\n") {
        Some(j4) => {
            let j4b = p_skip_pref(s, j4, "  ", "  - ", "  apartments:");
            let f = Floor { number: n, apartments: Vec::new() };
            proof {
                assert(f.apartments@.map_values(|a: Apartment| apt_data(a)) =~= Seq::<
                    AptData,
                >::empty());
            }
            Some((f, j4b))
        },
        None => {
            match p_lit(s, j3b, "  apartments:\n") {
                None => None,
                Some(j4) => {
                    let (apts, j5) = p_apts(s, j4);
                    let j5b = p_skip_pref(s, j5, "  ", "  - ", "  apartments:");
                    Some((Floor { number: n, apartments: apts }, j5b))
                },
            }
        },
    }
}

/// Reads floor records at position `i` of `s` while one starts there.
fn p_floors(s: &Vec<char>, i: usize) -> (r: (Vec<Floor>, usize))
    requires
        i <= s@.len(),
    ensures
        i <= r.1 <= s@.len(),
        parse_floors(s@.skip(i as int)) == (
            r.0@.map_values(|f: Floor| floor_data(f)),
            s@.skip(r.1 as int),
        ),
{
    let mut out: Vec<Floor> = Vec::new();
    let mut cur: usize = i;
    loop
        invariant
            i <= cur <= s@.len(),
            parse_floors(s@.skip(i as int)) == ({
                let rest = parse_floors(s@.skip(cur as int));
                (out@.map_values(|f: Floor| floor_data(f)) + rest.0, rest.1)
            }),
        decreases s@.len() - cur,
    {
        let ghost scur = s@.skip(cur as int);
        match p_floor(s, cur) {
            None => {
                proof {
                    assert(parse_floors(scur) == (Seq::<FloorData>::empty(), scur));
                    assert(out@.map_values(|f: Floor| floor_data(f)) + Seq::<FloorData>::empty()
                        =~= out@.map_values(|f: Floor| floor_data(f)));
                }
                return (out, cur);
            },
            Some((fl, j)) => {
                proof {
                    lemma_parse_floor_consumes(scur);
                }
                let ghost prev = out@;
                out.push(fl);
                proof {
                    let f = |x: Floor| floor_data(x);
                    let rest = parse_floors(s@.skip(j as int));
                    assert(parse_floors(scur) == (seq![floor_data(fl)] + rest.0, rest.1));
                    assert(out@.map_values(f) =~= prev.map_values(f).push(floor_data(fl)));
                    assert(prev.map_values(f).push(floor_data(fl)) + rest.0 =~= prev.map_values(f)
                        + (seq![floor_data(fl)] + rest.0));
                }
                cur = j;
            },
        }
    }
}

impl Building {
    /// Reads a persisted document back into a building, ignoring unknown
    /// fields. `ParseFailure` means the text does not hold a document of
    /// this format.
    pub fn from_text(t: &str) -> (r: Result<Building, StoreError>)
        ensures
            match r {
                Ok(b) => parse_doc(t@) == Some(building_data(b)),
                Err(e) => parse_doc(t@) is None && e == StoreError::ParseFailure,
            },
    {
        proof {
            reveal_strlit("floors: []\n");
            reveal_strlit("floors:\n");
            assert("floors: []\n"@ =~= lit_doc_empty());
            assert("floors:\n"@ =~= lit_doc_hdr());
        }
        let s = str_chars(t);
        proof {
            assert(s@.skip(0) =~= t@);
        }
        let i0 = p_skip_entries(&s, 0);
        match p_lit(&s, i0, "floors: []\n") {
            Some(j) => {
                let j2 = p_skip_entries(&s, j);
                if j2 == s.len() {
                    proof {
                        assert(s@.skip(j2 as int).len() == 0);
                    }
                    let b = Building { floors: Vec::new() };
                    proof {
                        assert(building_data(b) =~= Seq::<FloorData>::empty());
                    }
                    Ok(b)
                } else {
                    proof {
                        assert(s@.skip(j2 as int).len() != 0);
                    }
                    Err(StoreError::ParseFailure)
                }
            },
            None => {
                match p_lit(&s, i0, "floors:\n") {
                    None => Err(StoreError::ParseFailure),
                    Some(j) => {
                        let (fls, jf) = p_floors(&s, j);
                        let j2 = p_skip_entries(&s, jf);
                        if j2 == s.len() {
                            proof {
                                assert(s@.skip(j2 as int).len() == 0);
                            }
                            Ok(Building { floors: fls })
                        } else {
                            proof {
                                assert(s@.skip(j2 as int).len() != 0);
                            }
                            Err(StoreError::ParseFailure)
                        }
                    },
                }
            },
        }
    }
}

impl Building {
    /// The fail-soft load: parsed content when it is readable, the empty
    /// default building otherwise (no content, or content the codec did
    /// not write).
    pub fn load_or_default(content: Option<&str>) -> (b: Building)
        ensures
            match content {
                None => b.floors@.len() == 0,
                Some(s) => match parse_doc(s@) {
                    Some(d) => building_data(b) == d,
                    None => b.floors@.len() == 0,
                },
            },
    {
        match content {
            Some(s) => match Building::from_text(s) {
                Ok(b) => b,
                Err(_) => Building::default(),
            },
            None => Building::default(),
        }
    }
}

/// A literal at the front of a text matches and is stripped.
proof fn lemma_match_lit_concat(lit: Seq<char>, rest: Seq<char>)
    ensures
        match_lit(lit + rest, lit) == Some(rest),
{
    assert((lit + rest).take(lit.len() as int) =~= lit);
    assert((lit + rest).skip(lit.len() as int) =~= rest);
}

/// A single differing character refutes a literal match.
proof fn lemma_match_lit_diff(s: Seq<char>, lit: Seq<char>, k: int)
    requires
        0 <= k < lit.len(),
        k < s.len(),
        s[k] != lit[k],
    ensures
        match_lit(s, lit) is None,
{
    if lit.len() <= s.len() && s.take(lit.len() as int) == lit {
        assert(s.take(lit.len() as int)[k] == lit[k]);
    }
}

/// A text that is empty or not space-indented starts no skippable
/// unknown field line.
proof fn lemma_no_indent_noop(s: Seq<char>)
    requires
        s.len() == 0 || s[0] != ' ',
    ensures
        !starts_with(s, lit_two_sp()),
        !starts_with(s, lit_four_sp()),
        skip_pref_lines(s, lit_two_sp(), lit_item2(), lit_apts_key()) == s,
        skip_pref_lines(s, lit_four_sp(), nl(), nl()) == s,
{
    if s.len() > 0 {
        lemma_match_lit_diff(s, lit_two_sp(), 0);
        lemma_match_lit_diff(s, lit_four_sp(), 0);
    }
}

/// A line-safe line followed by its break reads back exactly.
proof fn lemma_parse_line_concat(line: Seq<char>, rest: Seq<char>)
    requires
        line_safe(line),
    ensures
        parse_line((line + nl()) + rest) == Some((line, rest)),
{
    let t = (line + nl()) + rest;
    assert(t[line.len() as int] == '\n');
    assert(forall|m: int| 0 <= m < line.len() ==> t[m] == line[m] && t[m] != '\n');
    lemma_line_end_at(t, line.len() as int);
    assert(t.take(line.len() as int) =~= line);
    assert(t.skip(line.len() as int + 1) =~= rest);
}

/// The canonical numeral of `n` is made of digits and is worth `n`.
proof fn lemma_dec_chars_digits(n: nat)
    ensures
        forall|j: int| 0 <= j < dec_chars(n).len() ==> is_digit_char(#[trigger] dec_chars(n)[j]),
        digits_val(dec_chars(n)) == n,
        dec_chars(n).len() >= 1,
    decreases n,
{
    if n < 10 {
        let c = digit_char(n);
        assert(c as u32 == n + 48);
        assert(digits_val(dec_chars(n)) == digits_val(dec_chars(n).drop_last()) * 10 + digit_val(
            c,
        ));
        assert(dec_chars(n).drop_last() =~= Seq::<char>::empty());
    } else {
        lemma_dec_chars_digits(n / 10);
        let c = digit_char(n % 10);
        assert(c as u32 == n % 10 + 48);
        assert(dec_chars(n).drop_last() =~= dec_chars(n / 10));
        assert(dec_chars(n).last() == c);
        assert((n / 10) * 10 + n % 10 == n) by (nonlinear_arith);
    }
}

/// A number below ten to the `k` needs at most `k` digits.
proof fn lemma_dec_chars_len(n: nat, k: nat)
    requires
        k >= 1,
        n < pow10(k),
    ensures
        dec_chars(n).len() <= k,
    decreases k,
{
    if n < 10 {
    } else {
        assert(pow10(k) == 10 * pow10((k - 1) as nat));
        if k == 1 {
            assert(pow10(0nat) == 1);
            assert(false);
        }
        assert(n / 10 < pow10((k - 1) as nat)) by (nonlinear_arith)
            requires
                n < 10 * pow10((k - 1) as nat),
        ;
        lemma_dec_chars_len(n / 10, (k - 1) as nat);
    }
}

/// The canonical numeral of a `u16` followed by a non-digit reads back.
proof fn lemma_parse_num_dec(n: u16, rest: Seq<char>)
    requires
        rest.len() == 0 || !is_digit_char(rest[0]),
    ensures
        parse_num(dec_chars(n as nat) + rest) == Some((n, rest)),
{
    let d = dec_chars(n as nat);
    let t = d + rest;
    lemma_dec_chars_digits(n as nat);
    assert(pow10(0nat) == 1);
    assert(pow10(1nat) == 10);
    assert(pow10(2nat) == 100);
    assert(pow10(3nat) == 1000);
    assert(pow10(4nat) == 10000);
    assert(pow10(5nat) == 100000);
    lemma_dec_chars_len(n as nat, 5);
    assert(forall|m: int| 0 <= m < d.len() ==> t[m] == d[m]);
    if d.len() < t.len() {
        assert(t[d.len() as int] == rest[0]);
    }
    lemma_digit_run_at(t, d.len() as int);
    assert(t.take(d.len() as int) =~= d);
    assert(t.skip(d.len() as int) =~= rest);
}

/// A written boolean reads back.
proof fn lemma_parse_bool_yaml(b: bool, rest: Seq<char>)
    ensures
        parse_bool(yaml_bool(b) + rest) == Some((b, rest)),
{
    if b {
        lemma_match_lit_concat(lit_true(), rest);
    } else {
        let t = yaml_bool(b) + rest;
        assert(t[0] == 'f');
        lemma_match_lit_diff(t, lit_true(), 0);
        lemma_match_lit_concat(lit_false(), rest);
    }
}

/// A written apartment record reads back exactly: the escaping of the
/// stored values is undone, and no unknown field stands in a written
/// record, so nothing is skipped.
#[verifier::rlimit(100)]
proof fn lemma_parse_apt_yaml(a: AptData, rest: Seq<char>)
    requires
        !starts_with(rest, lit_four_sp()),
    ensures
        parse_apt(yaml_apt(a) + rest) == Some((a, rest)),
{
    lemma_esc_line_safe(a.0);
    lemma_esc_line_safe(a.2);
    lemma_unesc_esc(a.0);
    lemma_unesc_esc(a.2);
    let w12 = rest;
    let w11 = nl() + w12;
    let w10 = yaml_bool(a.3) + w11;
    let w9 = lit_occupied() + w10;
    let w8 = nl() + w9;
    let w7 = esc(a.2) + w8;
    let w6 = lit_door() + w7;
    let w5 = nl() + w6;
    let w4 = dec_chars(a.1 as nat) + w5;
    let w3 = lit_floor() + w4;
    let w2 = nl() + w3;
    let w1 = esc(a.0) + w2;
    let w0 = lit_code() + w1;
    assert(yaml_apt(a) + rest =~= w0);
    lemma_match_lit_concat(lit_code(), w1);
    assert(w1 =~= (esc(a.0) + nl()) + w3);
    lemma_parse_line_concat(esc(a.0), w3);
    lemma_match_lit_concat(lit_floor(), w4);
    lemma_skip_pref_noop(w3, lit_four_sp(), lit_floor(), lit_floor());
    assert(w5[0] == '\n');
    lemma_parse_num_dec(a.1, w5);
    lemma_match_lit_concat(nl(), w6);
    lemma_match_lit_concat(lit_door(), w7);
    lemma_skip_pref_noop(w6, lit_four_sp(), lit_door(), lit_door());
    assert(w7 =~= (esc(a.2) + nl()) + w9);
    lemma_parse_line_concat(esc(a.2), w9);
    lemma_match_lit_concat(lit_occupied(), w10);
    lemma_skip_pref_noop(w9, lit_four_sp(), lit_occupied(), lit_occupied());
    lemma_parse_bool_yaml(a.3, w11);
    lemma_match_lit_concat(nl(), w12);
    lemma_skip_pref_noop(w12, lit_four_sp(), nl(), nl());
    assert(a == (a.0, a.1, a.2, a.3));
}

/// A written apartment list reads back exactly, stopping where the next
/// record is no apartment.
#[verifier::rlimit(100)]
proof fn lemma_parse_apts_yaml(list: Seq<AptData>, rest: Seq<char>)
    requires
        parse_apt(rest) is None,
        !starts_with(rest, lit_four_sp()),
    ensures
        parse_apts(yaml_apts(list) + rest) == (list, rest),
    decreases list.len(),
{
    if list.len() == 0 {
        assert(yaml_apts(list) + rest =~= rest);
        assert(parse_apts(rest) == (Seq::<AptData>::empty(), rest));
        assert(Seq::<AptData>::empty() =~= list);
    } else {
        let s = yaml_apts(list) + rest;
        let r = yaml_apts(list.skip(1)) + rest;
        assert(s =~= yaml_apt(list[0]) + r);
        if list.skip(1).len() == 0 {
            assert(r =~= rest);
        } else {
            assert(lit_code().len() == 10);
            assert(yaml_apt(list.skip(1)[0]).len() >= 10);
            assert(r[2] == yaml_apt(list.skip(1)[0])[2]);
            assert(r[2] == '-');
            assert(lit_four_sp()[2] == ' ');
            lemma_match_lit_diff(r, lit_four_sp(), 2);
        }
        lemma_parse_apt_yaml(list[0], r);
        assert(lit_code().len() == 10);
        assert(yaml_apt(list[0]).len() >= 10);
        assert(r.len() < s.len());
        assert(forall|j: int| 0 <= j < list.skip(1).len() ==> list.skip(1)[j] == list[j + 1]);
        lemma_parse_apts_yaml(list.skip(1), rest);
        assert(seq![list[0]] + list.skip(1) =~= list);
    }
}

/// A written floor record reads back exactly.
proof fn lemma_parse_floor_yaml(f: FloorData, rest: Seq<char>)
    requires
        rest.len() == 0 || rest[0] != ' ',
        f.1.len() > 0 ==> parse_apt(rest) is None,
    ensures
        parse_floor(yaml_floor(f) + rest) == Some((f, rest)),
{
    if f.1.len() == 0 {
        lemma_parse_floor_yaml_empty(f, rest);
    } else {
        lemma_parse_floor_yaml_items(f, rest);
    }
}

/// A written floor record with no apartments reads back exactly.
#[verifier::rlimit(100)]
proof fn lemma_parse_floor_yaml_empty(f: FloorData, rest: Seq<char>)
    requires
        rest.len() == 0 || rest[0] != ' ',
        f.1.len() == 0,
    ensures
        parse_floor(yaml_floor(f) + rest) == Some((f, rest)),
{
    lemma_no_indent_noop(rest);
    if f.1.len() == 0 {
        let w4 = rest;
        let w3 = lit_apts_empty() + w4;
        let w2 = nl() + w3;
        let w1 = dec_chars(f.0 as nat) + w2;
        let w0 = lit_number() + w1;
        assert(yaml_floor(f) + rest =~= w0);
        lemma_match_lit_concat(lit_number(), w1);
        assert(w2[0] == '\n');
        lemma_parse_num_dec(f.0, w2);
        lemma_match_lit_concat(nl(), w3);
        assert(w3.take(13) =~= lit_apts_key());
        assert(starts_with(w3, lit_apts_key()));
        lemma_skip_pref_noop(w3, lit_two_sp(), lit_item2(), lit_apts_key());
        lemma_match_lit_concat(lit_apts_empty(), w4);
        lemma_skip_pref_noop(w4, lit_two_sp(), lit_item2(), lit_apts_key());
        assert((f.0, Seq::<AptData>::empty()) =~~= f);
    }
}

/// A written floor record with apartments reads back exactly.
#[verifier::rlimit(100)]
proof fn lemma_parse_floor_yaml_items(f: FloorData, rest: Seq<char>)
    requires
        rest.len() == 0 || rest[0] != ' ',
        f.1.len() > 0,
        parse_apt(rest) is None,
    ensures
        parse_floor(yaml_floor(f) + rest) == Some((f, rest)),
{
    lemma_no_indent_noop(rest);
    {
        let w5 = rest;
        let w4 = yaml_apts(f.1) + w5;
        let w3 = lit_apts_hdr() + w4;
        let w2 = nl() + w3;
        let w1 = dec_chars(f.0 as nat) + w2;
        let w0 = lit_number() + w1;
        assert(yaml_floor(f) + rest =~= w0);
        lemma_match_lit_concat(lit_number(), w1);
        assert(w2[0] == '\n');
        lemma_parse_num_dec(f.0, w2);
        lemma_match_lit_concat(nl(), w3);
        assert(w3.take(13) =~= lit_apts_key());
        assert(starts_with(w3, lit_apts_key()));
        lemma_skip_pref_noop(w3, lit_two_sp(), lit_item2(), lit_apts_key());
        assert(w3[13] == '\n');
        assert(lit_apts_empty()[13] == ' ');
        lemma_match_lit_diff(w3, lit_apts_empty(), 13);
        lemma_match_lit_concat(lit_apts_hdr(), w4);
        lemma_parse_apts_yaml(f.1, rest);
        lemma_skip_pref_noop(w5, lit_two_sp(), lit_item2(), lit_apts_key());
    }
}

/// A written floor list reads back exactly, stopping where the next
/// record is no floor.
#[verifier::rlimit(100)]
proof fn lemma_parse_floors_yaml(list: Seq<FloorData>, rest: Seq<char>)
    requires
        parse_floor(rest) is None,
        parse_apt(rest) is None,
        rest.len() == 0 || rest[0] != ' ',
    ensures
        parse_floors(yaml_floors(list) + rest) == (list, rest),
    decreases list.len(),
{
    if list.len() == 0 {
        assert(yaml_floors(list) + rest =~= rest);
        assert(parse_floors(rest) == (Seq::<FloorData>::empty(), rest));
        assert(Seq::<FloorData>::empty() =~= list);
    } else {
        let s = yaml_floors(list) + rest;
        let r = yaml_floors(list.skip(1)) + rest;
        assert(s =~= yaml_floor(list[0]) + r);
        if list.skip(1).len() == 0 {
            assert(r =~= rest);
        } else {
            assert(lit_number().len() == 10);
            assert(yaml_floor(list.skip(1)[0]).len() >= 10);
            assert(r[0] == yaml_floor(list.skip(1)[0])[0]);
            assert(r[0] == '-');
            if list[0].1.len() > 0 {
                assert(lit_code()[0] == ' ');
                lemma_match_lit_diff(r, lit_code(), 0);
            }
        }
        lemma_parse_floor_yaml(list[0], r);
        assert(lit_number().len() == 10);
        assert(yaml_floor(list[0]).len() >= 10);
        assert(r.len() < s.len());
        assert(forall|j: int| 0 <= j < list.skip(1).len() ==> list.skip(1)[j] == list[j + 1]);
        lemma_parse_floors_yaml(list.skip(1), rest);
        assert(seq![list[0]] + list.skip(1) =~= list);
    }
}

/// The round-trip law of the codec: reading a written document yields
/// exactly the data it was written from.
pub proof fn lemma_parse_doc_yaml(fls: Seq<FloorData>)
    ensures
        parse_doc(yaml_doc(fls)) == Some(fls),
{
    let empty = Seq::<char>::empty();
    assert(skip_entries(empty) == empty);
    if fls.len() == 0 {
        let s = yaml_doc(fls);
        assert(s.take(7) =~= lit_floors_key());
        assert(starts_with(s, lit_floors_key()));
        assert(skip_entries(s) == s);
        assert(s =~= lit_doc_empty() + empty);
        lemma_match_lit_concat(lit_doc_empty(), empty);
        assert(Seq::<FloorData>::empty() =~= fls);
    } else {
        let s = yaml_doc(fls);
        assert(s.take(7) =~= lit_floors_key());
        assert(starts_with(s, lit_floors_key()));
        assert(skip_entries(s) == s);
        assert(s[7] == '\n');
        assert(lit_doc_empty()[7] == ' ');
        lemma_match_lit_diff(s, lit_doc_empty(), 7);
        assert(s =~= lit_doc_hdr() + yaml_floors(fls));
        lemma_match_lit_concat(lit_doc_hdr(), yaml_floors(fls));
        assert(parse_floor(empty) is None);
        assert(parse_apt(empty) is None);
        assert(yaml_floors(fls) =~= yaml_floors(fls) + empty);
        lemma_parse_floors_yaml(fls, empty);
    }
}

/// The round-trip law of the store: every building reads back, from its
/// own written text, as a building with the same data; writing that
/// building again yields the same bytes.
pub proof fn lemma_text_round_trip(b: Building)
    ensures
        parse_doc(yaml_building(b)) == Some(building_data(b)),
        forall|c: Building|
            building_data(c) == building_data(b) ==> yaml_building(c) == yaml_building(b),
{
    lemma_parse_doc_yaml(building_data(b));
}

} // verus!
