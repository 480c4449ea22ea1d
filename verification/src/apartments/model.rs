//! The record model: apartments, floors and the building, with the code
//! parser that normalizes a free-form apartment code into a floor number
//! and a door letter sequence, and the commands that mutate a building.

use vstd::prelude::*;
use vstd::string::StringExecFns;

use crate::apartments::text::{
    char_is_alpha, char_is_digit, char_upper, dec_chars, digit_val, digits_val, is_alpha_char,
    is_digit_char, lemma_lex_transitive, lemma_lex_trichotomy, letters_of, lex_lt, push_char,
    push_dec, str_chars, str_lt, upper_char, upper_seq,
};

verus! {

broadcast use vstd::seq_lib::group_filter_ensures;

/// The digit characters of the upper-cased input, in relative order.
pub open spec fn code_digits(s: Seq<char>) -> Seq<char> {
    upper_seq(s).filter(|c: char| is_digit_char(c))
}

/// The floor number encoded in a raw code: the value of its digit
/// characters read in relative order, or 0 when there are no digits or
/// their value does not fit in a `u16`.
pub open spec fn floor_of(s: Seq<char>) -> u16 {
    let ds = code_digits(s);
    if ds.len() == 0 || digits_val(ds) > 0xffff {
        0
    } else {
        digits_val(ds) as u16
    }
}

/// Why a command on the building or the store failed.
#[derive(PartialEq, Eq, Structural, Clone, Copy, Debug)]
pub enum StoreError {
    /// A searched file, floor or apartment is absent.
    NotFound,
    /// Persisted content did not parse.
    ParseFailure,
    /// A read, write or directory creation failed.
    IoFailure,
    /// The requested change conflicts with the present state.
    LogicConflict,
}

/// An apartment: a normalized code, the floor number and door letters
/// the code decomposes into, and an occupancy flag.
pub struct Apartment {
    pub code: String,
    pub floor: u16,
    pub door: String,
    pub occupied: bool,
}

/// A floor: its number and its apartments, kept sorted by door.
pub struct Floor {
    pub number: u16,
    pub apartments: Vec<Apartment>,
}

/// A building: its floors, kept sorted by number.
pub struct Building {
    pub floors: Vec<Floor>,
}

impl Apartment {
    /// Parses a free-form code: every character is upper-cased into the
    /// normalized code, digits are bucketed into the floor numeral and
    /// letters into the door, whatever their relative order; other
    /// characters are skipped. No digits, or a numeral too large for a
    /// `u16`, defaults the floor to 0.
    pub fn from_code(apartment_code: &str, occupied: bool) -> (a: Apartment)
        ensures
            a.code@ == upper_seq(apartment_code@),
            a.floor == floor_of(apartment_code@),
            a.door@ == letters_of(apartment_code@),
            a.occupied == occupied,
    {
        let cs = str_chars(apartment_code);
        let mut code = String::new();
        let mut door = String::new();
        let mut digits: Vec<char> = Vec::new();
        let mut i: usize = 0;
        while i < cs.len()
            invariant
                cs@ == apartment_code@,
                i <= cs@.len(),
                code@ == upper_seq(cs@.take(i as int)),
                door@ == letters_of(cs@.take(i as int)),
                digits@ == code_digits(cs@.take(i as int)),
            decreases cs@.len() - i,
        {
            let c = cs[i];
            let u = char_upper(c);
            push_char(&mut code, u);
            if char_is_digit(u) {
                digits.push(u);
            } else if char_is_alpha(u) {
                push_char(&mut door, u);
            }
            proof {
                lemma_upper_take_step(cs@, i as int);
                lemma_filter_push(upper_seq(cs@.take(i as int)), u, |x: char| is_digit_char(x));
                lemma_filter_push(upper_seq(cs@.take(i as int)), u, |x: char| is_alpha_char(x));
            }
            i += 1;
        }
        proof {
            assert(cs@.take(cs@.len() as int) =~= cs@);
        }
        let floor = floor_from_digits(&digits);
        Apartment { code, floor, door, occupied }
    }

    /// Builds an apartment from an explicit floor number and door: the
    /// door is upper-cased and the code is the floor numeral followed by
    /// the door.
    pub fn from_floor_door(floor: u16, door: &str, occupied: bool) -> (a: Apartment)
        ensures
            a.code@ == dec_chars(floor as nat) + upper_seq(door@),
            a.floor == floor,
            a.door@ == upper_seq(door@),
            a.occupied == occupied,
    {
        let cs = str_chars(door);
        let mut door_letter = String::new();
        let mut i: usize = 0;
        while i < cs.len()
            invariant
                cs@ == door@,
                i <= cs@.len(),
                door_letter@ == upper_seq(cs@.take(i as int)),
            decreases cs@.len() - i,
        {
            push_char(&mut door_letter, char_upper(cs[i]));
            proof {
                lemma_upper_take_step(cs@, i as int);
            }
            i += 1;
        }
        proof {
            assert(cs@.take(cs@.len() as int) =~= cs@);
        }
        let mut code = String::new();
        push_dec(&mut code, floor);
        code.append(door_letter.as_str());
        Apartment { code, floor, door: door_letter, occupied }
    }
}

/// Upper-casing one more character of `s` extends the upper-cased prefix.
proof fn lemma_upper_take_step(s: Seq<char>, i: int)
    requires
        0 <= i < s.len(),
    ensures
        upper_seq(s.take(i + 1)) == upper_seq(s.take(i)).push(upper_char(s[i])),
{
    assert(upper_seq(s.take(i + 1)) =~= upper_seq(s.take(i)).push(upper_char(s[i])));
}

/// Filtering past a pushed element keeps it exactly when it satisfies
/// the predicate.
proof fn lemma_filter_push(s: Seq<char>, c: char, p: spec_fn(char) -> bool)
    ensures
        s.push(c).filter(p) == if p(c) {
            s.filter(p).push(c)
        } else {
            s.filter(p)
        },
{
    reveal(Seq::filter);
    assert(s.push(c).drop_last() =~= s);
    assert(s.push(c).last() == c);
}

/// The floor number a digit run encodes, with the out-of-range default.
fn floor_from_digits(ds: &Vec<char>) -> (r: u16)
    requires
        forall|j: int| 0 <= j < ds@.len() ==> is_digit_char(#[trigger] ds@[j]),
    ensures
        r == if ds@.len() == 0 || digits_val(ds@) > 0xffff {
            0u16
        } else {
            digits_val(ds@) as u16
        },
{
    if ds.len() == 0 {
        return 0;
    }
    let mut v: u32 = 0;
    let mut over = false;
    let mut i: usize = 0;
    while i < ds.len()
        invariant
            i <= ds@.len(),
            forall|j: int| 0 <= j < ds@.len() ==> is_digit_char(#[trigger] ds@[j]),
            over ==> digits_val(ds@.take(i as int)) > 0xffff,
            !over ==> v == digits_val(ds@.take(i as int)) && v <= 0xffff,
        decreases ds@.len() - i,
    {
        let n = ds[i] as u32;
        let d = n - 48;
        proof {
            assert(ds@.take(i + 1).drop_last() =~= ds@.take(i as int));
            assert(digits_val(ds@.take(i + 1)) == digits_val(ds@.take(i as int)) * 10 + digit_val(
                ds@[i as int],
            ));
        }
        if !over {
            let nv = v * 10 + d;
            if nv > 0xffff {
                over = true;
                proof {
                    assert(digits_val(ds@.take(i + 1)) > 0xffff);
                }
            } else {
                v = nv;
            }
        } else {
            proof {
                let prev = digits_val(ds@.take(i as int));
                assert(prev <= prev * 10) by (nonlinear_arith);
            }
        }
        i += 1;
    }
    proof {
        assert(ds@.take(ds@.len() as int) =~= ds@);
    }
    if over {
        0
    } else {
        v as u16
    }
}

impl Floor {
    /// The apartments are strictly sorted by door, so doors are unique.
    pub open spec fn doors_sorted(self) -> bool {
        forall|i: int, j: int|
            0 <= i < j < self.apartments@.len() ==> lex_lt(
                self.apartments@[i].door@,
                self.apartments@[j].door@,
            )
    }

    /// Some apartment on this floor has this door.
    pub open spec fn has_door(self, door: Seq<char>) -> bool {
        door_idx(self.apartments@, door) >= 0
    }

    /// Decides `doors_sorted`.
    pub fn check_sorted(&self) -> (r: bool)
        ensures
            r == self.doors_sorted(),
    {
        let n = self.apartments.len();
        let mut i: usize = 0;
        while i < n
            invariant
                i <= n,
                n == self.apartments@.len(),
                forall|p: int, q: int|
                    0 <= p < q < n && p < i ==> lex_lt(
                        self.apartments@[p].door@,
                        self.apartments@[q].door@,
                    ),
            decreases n - i,
        {
            let mut j: usize = i + 1;
            while j < n
                invariant
                    i < j <= n,
                    i < n,
                    n == self.apartments@.len(),
                    forall|q: int|
                        i < q < j ==> lex_lt(self.apartments@[i as int].door@, self.apartments@[q].door@),
                decreases n - j,
            {
                if !str_lt(self.apartments[i].door.as_str(), self.apartments[j].door.as_str()) {
                    return false;
                }
                j += 1;
            }
            i += 1;
        }
        true
    }
}

impl Building {
    /// Floors strictly sorted by number, each floor sorted by door.
    pub open spec fn wf(self) -> bool {
        &&& forall|i: int, j: int|
            0 <= i < j < self.floors@.len() ==> self.floors@[i].number < self.floors@[j].number
        &&& forall|i: int|
            0 <= i < self.floors@.len() ==> (#[trigger] self.floors@[i]).doors_sorted()
    }

    /// Some floor has this number.
    pub open spec fn has_floor(self, n: u16) -> bool {
        floor_idx(self.floors@, n) >= 0
    }

    /// Decides `wf`.
    pub fn check_wf(&self) -> (r: bool)
        ensures
            r == self.wf(),
    {
        let n = self.floors.len();
        let mut i: usize = 0;
        while i < n
            invariant
                i <= n,
                n == self.floors@.len(),
                forall|p: int, q: int|
                    0 <= p < q < n && p < i ==> self.floors@[p].number < self.floors@[q].number,
                forall|p: int| 0 <= p < i ==> (#[trigger] self.floors@[p]).doors_sorted(),
            decreases n - i,
        {
            if !self.floors[i].check_sorted() {
                return false;
            }
            let mut j: usize = i + 1;
            while j < n
                invariant
                    i < j <= n,
                    i < n,
                    n == self.floors@.len(),
                    forall|q: int| i < q < j ==> self.floors@[i as int].number < self.floors@[q].number,
                decreases n - j,
            {
                if self.floors[i].number >= self.floors[j].number {
                    return false;
                }
                j += 1;
            }
            i += 1;
        }
        true
    }
}

/// The first index of a floor with this number, or -1 when none has it.
pub open spec fn floor_idx(floors: Seq<Floor>, n: u16) -> int
    decreases floors.len(),
{
    if floors.len() == 0 {
        -1
    } else if floors[0].number == n {
        0
    } else {
        let r = floor_idx(floors.skip(1), n);
        if r < 0 {
            -1
        } else {
            1 + r
        }
    }
}

/// The first index of an apartment with this door, or -1 when none has it.
pub open spec fn door_idx(apts: Seq<Apartment>, door: Seq<char>) -> int
    decreases apts.len(),
{
    if apts.len() == 0 {
        -1
    } else if apts[0].door@ == door {
        0
    } else {
        let r = door_idx(apts.skip(1), door);
        if r < 0 {
            -1
        } else {
            1 + r
        }
    }
}

proof fn lemma_floor_idx_at(floors: Seq<Floor>, n: u16, k: int)
    requires
        0 <= k < floors.len(),
        floors[k].number == n,
        forall|j: int| 0 <= j < k ==> floors[j].number != n,
    ensures
        floor_idx(floors, n) == k,
    decreases k,
{
    if k > 0 {
        assert(forall|j: int| 0 <= j < k - 1 ==> floors.skip(1)[j].number != n);
        lemma_floor_idx_at(floors.skip(1), n, k - 1);
    }
}

proof fn lemma_floor_idx_none(floors: Seq<Floor>, n: u16)
    requires
        forall|j: int| 0 <= j < floors.len() ==> floors[j].number != n,
    ensures
        floor_idx(floors, n) == -1,
    decreases floors.len(),
{
    if floors.len() > 0 {
        assert(forall|j: int| 0 <= j < floors.len() - 1 ==> floors.skip(1)[j].number != n);
        lemma_floor_idx_none(floors.skip(1), n);
    }
}

proof fn lemma_door_idx_at(apts: Seq<Apartment>, door: Seq<char>, k: int)
    requires
        0 <= k < apts.len(),
        apts[k].door@ == door,
        forall|j: int| 0 <= j < k ==> apts[j].door@ != door,
    ensures
        door_idx(apts, door) == k,
    decreases k,
{
    if k > 0 {
        assert(forall|j: int| 0 <= j < k - 1 ==> apts.skip(1)[j].door@ != door);
        lemma_door_idx_at(apts.skip(1), door, k - 1);
    }
}

proof fn lemma_door_idx_none(apts: Seq<Apartment>, door: Seq<char>)
    requires
        forall|j: int| 0 <= j < apts.len() ==> apts[j].door@ != door,
    ensures
        door_idx(apts, door) == -1,
    decreases apts.len(),
{
    if apts.len() > 0 {
        assert(forall|j: int| 0 <= j < apts.len() - 1 ==> apts.skip(1)[j].door@ != door);
        lemma_door_idx_none(apts.skip(1), door);
    }
}

/// The first index of the floor with number `n`, as an option.
fn find_floor(floors: &Vec<Floor>, n: u16) -> (r: Option<usize>)
    ensures
        match r {
            Some(i) => floor_idx(floors@, n) == i && i < floors@.len() && floors@[i as int].number
                == n,
            None => floor_idx(floors@, n) == -1,
        },
{
    let mut i: usize = 0;
    while i < floors.len()
        invariant
            i <= floors@.len(),
            forall|j: int| 0 <= j < i ==> floors@[j].number != n,
        decreases floors@.len() - i,
    {
        if floors[i].number == n {
            proof {
                lemma_floor_idx_at(floors@, n, i as int);
            }
            return Some(i);
        }
        i += 1;
    }
    proof {
        lemma_floor_idx_none(floors@, n);
    }
    None
}

/// The first index of the apartment with this door, as an option.
fn find_door(apts: &Vec<Apartment>, door: &String) -> (r: Option<usize>)
    ensures
        match r {
            Some(i) => door_idx(apts@, door@) == i && i < apts@.len() && apts@[i as int].door@
                == door@,
            None => door_idx(apts@, door@) == -1,
        },
{
    let mut i: usize = 0;
    while i < apts.len()
        invariant
            i <= apts@.len(),
            forall|j: int| 0 <= j < i ==> apts@[j].door@ != door@,
        decreases apts@.len() - i,
    {
        if apts[i].door == *door {
            proof {
                lemma_door_idx_at(apts@, door@, i as int);
            }
            return Some(i);
        }
        i += 1;
    }
    proof {
        lemma_door_idx_none(apts@, door@);
    }
    None
}

/// What `floor_idx` returns: the first match, or -1 when there is none.
proof fn lemma_floor_idx_props(floors: Seq<Floor>, n: u16)
    ensures
        floor_idx(floors, n) == -1 ==> forall|j: int| 0 <= j < floors.len() ==> floors[j].number
            != n,
        floor_idx(floors, n) != -1 ==> 0 <= floor_idx(floors, n) < floors.len() && floors[floor_idx(
            floors,
            n,
        )].number == n && forall|j: int| 0 <= j < floor_idx(floors, n) ==> floors[j].number != n,
    decreases floors.len(),
{
    if floors.len() > 0 {
        lemma_floor_idx_props(floors.skip(1), n);
        assert(forall|j: int| 1 <= j < floors.len() ==> floors[j] == floors.skip(1)[j - 1]);
    }
}

/// What `door_idx` returns: the first match, or -1 when there is none.
proof fn lemma_door_idx_props(apts: Seq<Apartment>, door: Seq<char>)
    ensures
        door_idx(apts, door) == -1 ==> forall|j: int| 0 <= j < apts.len() ==> apts[j].door@ != door,
        door_idx(apts, door) != -1 ==> 0 <= door_idx(apts, door) < apts.len() && apts[door_idx(
            apts,
            door,
        )].door@ == door && forall|j: int| 0 <= j < door_idx(apts, door) ==> apts[j].door@ != door,
    decreases apts.len(),
{
    if apts.len() > 0 {
        lemma_door_idx_props(apts.skip(1), door);
        assert(forall|j: int| 1 <= j < apts.len() ==> apts[j] == apts.skip(1)[j - 1]);
    }
}

/// The position a floor with number `n` is inserted at: past every floor
/// with a smaller number.
pub open spec fn floor_insert_pos(floors: Seq<Floor>, n: u16) -> int
    decreases floors.len(),
{
    if floors.len() == 0 {
        0
    } else if floors[0].number < n {
        1 + floor_insert_pos(floors.skip(1), n)
    } else {
        0
    }
}

/// The position an apartment with this door is inserted at: past every
/// smaller door.
pub open spec fn door_insert_pos(apts: Seq<Apartment>, door: Seq<char>) -> int
    decreases apts.len(),
{
    if apts.len() == 0 {
        0
    } else if lex_lt(apts[0].door@, door) {
        1 + door_insert_pos(apts.skip(1), door)
    } else {
        0
    }
}

proof fn lemma_floor_insert_pos_at(floors: Seq<Floor>, n: u16, k: int)
    requires
        0 <= k <= floors.len(),
        forall|j: int| 0 <= j < k ==> floors[j].number < n,
        k < floors.len() ==> floors[k].number >= n,
    ensures
        floor_insert_pos(floors, n) == k,
    decreases k,
{
    if k > 0 {
        assert(forall|j: int| 0 <= j < k - 1 ==> floors.skip(1)[j].number < n);
        lemma_floor_insert_pos_at(floors.skip(1), n, k - 1);
    }
}

proof fn lemma_door_insert_pos_at(apts: Seq<Apartment>, door: Seq<char>, k: int)
    requires
        0 <= k <= apts.len(),
        forall|j: int| 0 <= j < k ==> lex_lt(#[trigger] apts[j].door@, door),
        k < apts.len() ==> !lex_lt(apts[k].door@, door),
    ensures
        door_insert_pos(apts, door) == k,
    decreases k,
{
    if k > 0 {
        assert(forall|j: int| 0 <= j < k - 1 ==> lex_lt(#[trigger] apts.skip(1)[j].door@, door));
        lemma_door_insert_pos_at(apts.skip(1), door, k - 1);
    }
}

/// The insertion position for `n` among the floors.
fn floor_pos(floors: &Vec<Floor>, n: u16) -> (i: usize)
    ensures
        i == floor_insert_pos(floors@, n),
        i <= floors@.len(),
        forall|j: int| 0 <= j < i ==> floors@[j].number < n,
        i < floors@.len() ==> floors@[i as int].number >= n,
{
    let mut i: usize = 0;
    while i < floors.len()
        invariant
            i <= floors@.len(),
            forall|j: int| 0 <= j < i ==> floors@[j].number < n,
        decreases floors@.len() - i,
    {
        if floors[i].number >= n {
            proof {
                lemma_floor_insert_pos_at(floors@, n, i as int);
            }
            return i;
        }
        i += 1;
    }
    proof {
        lemma_floor_insert_pos_at(floors@, n, i as int);
    }
    i
}

/// The insertion position for this door among the apartments.
fn door_pos(apts: &Vec<Apartment>, door: &String) -> (i: usize)
    ensures
        i == door_insert_pos(apts@, door@),
        i <= apts@.len(),
        forall|j: int| 0 <= j < i ==> lex_lt(#[trigger] apts@[j].door@, door@),
        i < apts@.len() ==> !lex_lt(apts@[i as int].door@, door@),
{
    let mut i: usize = 0;
    while i < apts.len()
        invariant
            i <= apts@.len(),
            forall|j: int| 0 <= j < i ==> lex_lt(#[trigger] apts@[j].door@, door@),
        decreases apts@.len() - i,
    {
        if !str_lt(apts[i].door.as_str(), door.as_str()) {
            proof {
                lemma_door_insert_pos_at(apts@, door@, i as int);
            }
            return i;
        }
        i += 1;
    }
    proof {
        lemma_door_insert_pos_at(apts@, door@, i as int);
    }
    i
}

/// `a`, with the occupied flag raised.
pub open spec fn with_occupied(a: Apartment) -> Apartment {
    Apartment { code: a.code, floor: a.floor, door: a.door, occupied: true }
}

/// `a` is the apartment that parsing `raw` as an unoccupied code yields.
pub open spec fn is_parsed_apartment(a: Apartment, raw: Seq<char>) -> bool {
    &&& a.code@ == upper_seq(raw)
    &&& a.floor == floor_of(raw)
    &&& a.door@ == letters_of(raw)
    &&& !a.occupied
}

/// What occupying the apartment coded `raw` does to a building and
/// which signal it gives: a miss of the floor or of the door leaves the
/// building unchanged and reports `NotFound`; an apartment already
/// occupied is unchanged and reports `LogicConflict`; otherwise exactly
/// that apartment's flag is raised.
pub open spec fn occupy_outcome(
    pre: Building,
    raw: Seq<char>,
    post: Building,
    r: Result<(), StoreError>,
) -> bool {
    let fl = floor_of(raw);
    let door = letters_of(raw);
    let fi = floor_idx(pre.floors@, fl);
    if fi < 0 {
        post == pre && r == Err::<(), StoreError>(StoreError::NotFound)
    } else {
        let apts = pre.floors@[fi].apartments@;
        let ai = door_idx(apts, door);
        if ai < 0 {
            post == pre && r == Err::<(), StoreError>(StoreError::NotFound)
        } else if apts[ai].occupied {
            post == pre && r == Err::<(), StoreError>(StoreError::LogicConflict)
        } else {
            &&& r == Ok::<(), StoreError>(())
            &&& post.floors@.len() == pre.floors@.len()
            &&& (forall|j: int|
                0 <= j < pre.floors@.len() && j != fi ==> post.floors@[j] == pre.floors@[j])
            &&& post.floors@[fi].number == pre.floors@[fi].number
            &&& post.floors@[fi].apartments@ == apts.update(ai, with_occupied(apts[ai]))
        }
    }
}

/// What adding the apartment coded `raw` does to a building: a door
/// already present on the floor leaves the building unchanged and
/// reports `LogicConflict`; otherwise the parsed apartment is inserted
/// at its door position, on a floor created at its number position when
/// none had that number.
pub open spec fn add_outcome(
    pre: Building,
    raw: Seq<char>,
    post: Building,
    r: Result<(), StoreError>,
) -> bool {
    let fl = floor_of(raw);
    let door = letters_of(raw);
    let fi = floor_idx(pre.floors@, fl);
    if fi >= 0 {
        let apts = pre.floors@[fi].apartments@;
        if door_idx(apts, door) >= 0 {
            post == pre && r == Err::<(), StoreError>(StoreError::LogicConflict)
        } else {
            let ai = door_insert_pos(apts, door);
            &&& r == Ok::<(), StoreError>(())
            &&& post.floors@.len() == pre.floors@.len()
            &&& (forall|j: int|
                0 <= j < pre.floors@.len() && j != fi ==> post.floors@[j] == pre.floors@[j])
            &&& post.floors@[fi].number == pre.floors@[fi].number
            &&& 0 <= ai <= apts.len()
            &&& is_parsed_apartment(post.floors@[fi].apartments@[ai], raw)
            &&& post.floors@[fi].apartments@ == apts.insert(
                ai,
                post.floors@[fi].apartments@[ai],
            )
        }
    } else {
        let pi = floor_insert_pos(pre.floors@, fl);
        &&& r == Ok::<(), StoreError>(())
        &&& post.floors@.len() == pre.floors@.len() + 1
        &&& 0 <= pi <= pre.floors@.len()
        &&& (forall|j: int| 0 <= j < pi ==> post.floors@[j] == pre.floors@[j])
        &&& (forall|j: int|
            pi < j < post.floors@.len() ==> post.floors@[j] == pre.floors@[j - 1])
        &&& post.floors@[pi].number == fl
        &&& post.floors@[pi].apartments@.len() == 1
        &&& is_parsed_apartment(post.floors@[pi].apartments@[0], raw)
    }
}


/// The signal occupying the apartment coded `raw` gives on `pre`.
pub open spec fn occupy_result(pre: Building, raw: Seq<char>) -> Result<(), StoreError> {
    let fi = floor_idx(pre.floors@, floor_of(raw));
    if fi < 0 {
        Err(StoreError::NotFound)
    } else {
        let apts = pre.floors@[fi].apartments@;
        let ai = door_idx(apts, letters_of(raw));
        if ai < 0 {
            Err(StoreError::NotFound)
        } else if apts[ai].occupied {
            Err(StoreError::LogicConflict)
        } else {
            Ok(())
        }
    }
}

/// The signal adding the apartment coded `raw` gives on `pre`.
pub open spec fn add_result(pre: Building, raw: Seq<char>) -> Result<(), StoreError> {
    let fi = floor_idx(pre.floors@, floor_of(raw));
    if fi >= 0 && door_idx(pre.floors@[fi].apartments@, letters_of(raw)) >= 0 {
        Err(StoreError::LogicConflict)
    } else {
        Ok(())
    }
}

impl Building {
    /// Occupies the apartment named by the free-form code `raw`.
    pub fn occupy_apartment(&mut self, raw: &str) -> (r: Result<(), StoreError>)
        ensures
            occupy_outcome(*old(self), raw@, *final(self), r),
            r == occupy_result(*old(self), raw@),
            old(self).wf() ==> final(self).wf(),
    {
        let apt_search = Apartment::from_code(raw, true);
        let fi = match find_floor(&self.floors, apt_search.floor) {
            Some(i) => i,
            None => {
                return Err(StoreError::NotFound);
            },
        };
        let ai = match find_door(&self.floors[fi].apartments, &apt_search.door) {
            Some(i) => i,
            None => {
                return Err(StoreError::NotFound);
            },
        };
        if self.floors[fi].apartments[ai].occupied {
            return Err(StoreError::LogicConflict);
        }
        let f = &mut self.floors[fi];
        let a = &mut f.apartments[ai];
        a.occupied = true;
        proof {
            if old(self).wf() {
                assert forall|p: int, q: int|
                    0 <= p < q < self.floors@[fi as int].apartments@.len() implies lex_lt(
                    self.floors@[fi as int].apartments@[p].door@,
                    self.floors@[fi as int].apartments@[q].door@,
                ) by {
                    assert(old(self).floors@[fi as int].apartments@[p].door@ == self.floors@[fi as int].apartments@[p].door@);
                    assert(old(self).floors@[fi as int].apartments@[q].door@ == self.floors@[fi as int].apartments@[q].door@);
                }
            }
        }
        Ok(())
    }

    /// Adds the apartment named by the free-form code `raw`. On a
    /// building whose lists are not sorted the insertion still lands at
    /// the first position not below the new entry, without a full
    /// re-sort; sortedness is preserved exactly where it already held.
    pub fn add_apartment(&mut self, raw: &str) -> (r: Result<(), StoreError>)
        ensures
            add_outcome(*old(self), raw@, *final(self), r),
            r == add_result(*old(self), raw@),
            old(self).wf() ==> final(self).wf(),
    {
        let apt = Apartment::from_code(raw, false);
        match find_floor(&self.floors, apt.floor) {
            Some(fi) => {
                match find_door(&self.floors[fi].apartments, &apt.door) {
                    Some(_) => Err(StoreError::LogicConflict),
                    None => {
                        let ai = door_pos(&self.floors[fi].apartments, &apt.door);
                        let ghost pre = *self;
                        let ghost door = apt.door@;
                        let f = &mut self.floors[fi];
                        f.apartments.insert(ai, apt);
                        proof {
                            let apts = pre.floors@[fi as int].apartments@;
                            let newapts = self.floors@[fi as int].apartments@;
                            lemma_door_idx_props(apts, door);
                            if old(self).wf() {
                                assert forall|p: int, q: int|
                                    0 <= p < q < newapts.len() implies lex_lt(
                                    newapts[p].door@,
                                    newapts[q].door@,
                                ) by {
                                    lemma_sorted_insert_door(apts, door, ai as int, newapts, p, q);
                                }
                                assert(self.wf());
                            }
                        }
                        Ok(())
                    },
                }
            },
            None => {
                let pi = floor_pos(&self.floors, apt.floor);
                let mut apts: Vec<Apartment> = Vec::new();
                let number = apt.floor;
                let ghost pre = *self;
                apts.push(apt);
                self.floors.insert(pi, Floor { number, apartments: apts });
                proof {
                    lemma_floor_idx_props(pre.floors@, number);
                    if old(self).wf() {
                        assert forall|p: int, q: int|
                            0 <= p < q < self.floors@.len() implies self.floors@[p].number
                            < self.floors@[q].number by {
                            lemma_sorted_insert_floor(
                                pre.floors@,
                                number,
                                pi as int,
                                self.floors@,
                                p,
                                q,
                            );
                        }
                        assert(forall|i: int|
                            0 <= i < self.floors@.len() ==> (#[trigger] self.floors@[i]).doors_sorted());
                        assert(self.wf());
                    }
                }
                Ok(())
            },
        }
    }
}

/// One pair of the apartment list stays sorted after an insertion at the
/// door position of a door that was not present.
proof fn lemma_sorted_insert_door(
    apts: Seq<Apartment>,
    door: Seq<char>,
    ai: int,
    newapts: Seq<Apartment>,
    p: int,
    q: int,
)
    requires
        forall|i: int, j: int|
            0 <= i < j < apts.len() ==> lex_lt(apts[i].door@, apts[j].door@),
        forall|j: int| 0 <= j < apts.len() ==> apts[j].door@ != door,
        0 <= ai <= apts.len(),
        forall|j: int| 0 <= j < ai ==> lex_lt(#[trigger] apts[j].door@, door),
        ai < apts.len() ==> !lex_lt(apts[ai].door@, door),
        newapts.len() == apts.len() + 1,
        newapts[ai].door@ == door,
        forall|j: int| 0 <= j < ai ==> newapts[j] == apts[j],
        forall|j: int| ai < j < newapts.len() ==> newapts[j] == apts[j - 1],
        0 <= p < q < newapts.len(),
    ensures
        lex_lt(newapts[p].door@, newapts[q].door@),
{
    if ai < apts.len() {
        lemma_lex_trichotomy(apts[ai].door@, door);
    }
    if p == ai {
        // door against a later, larger door
        assert(q > ai);
        if q - 1 > ai {
            lemma_lex_transitive(door, apts[ai].door@, apts[q - 1].door@);
        }
    } else if q == ai {
        assert(p < ai);
    } else {
        // both ends are old apartments
    }
}

/// One pair of the floor list stays sorted after an insertion at the
/// number position of a number that was not present.
proof fn lemma_sorted_insert_floor(
    floors: Seq<Floor>,
    n: u16,
    pi: int,
    newfloors: Seq<Floor>,
    p: int,
    q: int,
)
    requires
        forall|i: int, j: int|
            0 <= i < j < floors.len() ==> floors[i].number < floors[j].number,
        forall|j: int| 0 <= j < floors.len() ==> floors[j].number != n,
        0 <= pi <= floors.len(),
        forall|j: int| 0 <= j < pi ==> floors[j].number < n,
        pi < floors.len() ==> floors[pi].number >= n,
        newfloors.len() == floors.len() + 1,
        newfloors[pi].number == n,
        forall|j: int| 0 <= j < pi ==> newfloors[j] == floors[j],
        forall|j: int| pi < j < newfloors.len() ==> newfloors[j] == floors[j - 1],
        0 <= p < q < newfloors.len(),
    ensures
        newfloors[p].number < newfloors[q].number,
{
}

/// `a` is the seed apartment of floor `n` with the single door letter `d`.
pub open spec fn is_seed_apartment(a: Apartment, n: u16, d: char) -> bool {
    &&& a.code@ == dec_chars(n as nat).push(d)
    &&& a.floor == n
    &&& a.door@ == seq![d]
    &&& !a.occupied
}

/// `f` is the seed floor numbered `n`: doors A, B and C, unoccupied.
pub open spec fn is_seed_floor(f: Floor, n: u16) -> bool {
    &&& f.number == n
    &&& f.apartments@.len() == 3
    &&& is_seed_apartment(f.apartments@[0], n, 'A')
    &&& is_seed_apartment(f.apartments@[1], n, 'B')
    &&& is_seed_apartment(f.apartments@[2], n, 'C')
}

/// `b` is the seed building: floors 1 and 2, three doors each.
pub open spec fn is_seed_building(b: Building) -> bool {
    &&& b.floors@.len() == 2
    &&& is_seed_floor(b.floors@[0], 1)
    &&& is_seed_floor(b.floors@[1], 2)
}

/// The seed floor numbered `n`.
fn seed_floor(n: u16) -> (f: Floor)
    ensures
        is_seed_floor(f, n),
        f.doors_sorted(),
{
    let mut apts: Vec<Apartment> = Vec::new();
    apts.push(Apartment::from_floor_door(n, "A", false));
    apts.push(Apartment::from_floor_door(n, "B", false));
    apts.push(Apartment::from_floor_door(n, "C", false));
    proof {
        reveal_strlit("A");
        reveal_strlit("B");
        reveal_strlit("C");
        assert(upper_seq("A"@) =~= seq!['A']);
        assert(upper_seq("B"@) =~= seq!['B']);
        assert(upper_seq("C"@) =~= seq!['C']);
        assert(dec_chars(n as nat) + seq!['A'] =~= dec_chars(n as nat).push('A'));
        assert(dec_chars(n as nat) + seq!['B'] =~= dec_chars(n as nat).push('B'));
        assert(dec_chars(n as nat) + seq!['C'] =~= dec_chars(n as nat).push('C'));
        assert(lex_lt(seq!['A'], seq!['B']));
        assert(lex_lt(seq!['A'], seq!['C']));
        assert(lex_lt(seq!['B'], seq!['C']));
    }
    Floor { number: n, apartments: apts }
}

impl Building {
    /// Seeds an empty building with the default stock: floors 1 and 2,
    /// each with unoccupied apartments A, B and C. A building that
    /// already has floors is left as it is.
    pub fn ensure_seeded(&mut self)
        ensures
            old(self).floors@.len() == 0 ==> is_seed_building(*final(self)) && final(self).wf(),
            old(self).floors@.len() > 0 ==> *final(self) == *old(self),
    {
        if self.floors.len() > 0 {
            return;
        }
        let f1 = seed_floor(1);
        let f2 = seed_floor(2);
        self.floors.push(f1);
        self.floors.push(f2);
    }
}

impl Default for Building {
    /// An empty building: no floors at all.
    fn default() -> (b: Building)
        ensures
            b.floors@.len() == 0,
            b.wf(),
    {
        Building { floors: Vec::new() }
    }
}

/// `floor_idx` looks only at the floor numbers.
proof fn lemma_floor_idx_same_numbers(x: Seq<Floor>, y: Seq<Floor>, n: u16)
    requires
        x.len() == y.len(),
        forall|j: int| 0 <= j < x.len() ==> x[j].number == y[j].number,
    ensures
        floor_idx(x, n) == floor_idx(y, n),
    decreases x.len(),
{
    if x.len() > 0 {
        assert(forall|j: int|
            0 <= j < x.len() - 1 ==> x.skip(1)[j].number == y.skip(1)[j].number);
        lemma_floor_idx_same_numbers(x.skip(1), y.skip(1), n);
    }
}

/// `door_idx` looks only at the doors.
proof fn lemma_door_idx_same_doors(x: Seq<Apartment>, y: Seq<Apartment>, door: Seq<char>)
    requires
        x.len() == y.len(),
        forall|j: int| 0 <= j < x.len() ==> x[j].door@ == y[j].door@,
    ensures
        door_idx(x, door) == door_idx(y, door),
    decreases x.len(),
{
    if x.len() > 0 {
        assert(forall|j: int| 0 <= j < x.len() - 1 ==> x.skip(1)[j].door@ == y.skip(1)[j].door@);
        lemma_door_idx_same_doors(x.skip(1), y.skip(1), door);
    }
}

/// Occupying the same code twice: when the first call succeeded, a
/// second call on the resulting building fails with a conflict and
/// leaves it unchanged.
pub proof fn lemma_occupy_twice(
    pre: Building,
    raw: Seq<char>,
    mid: Building,
    post: Building,
    r2: Result<(), StoreError>,
)
    requires
        occupy_outcome(pre, raw, mid, Ok::<(), StoreError>(())),
        occupy_outcome(mid, raw, post, r2),
    ensures
        r2 == Err::<(), StoreError>(StoreError::LogicConflict),
        post == mid,
{
    let fl = floor_of(raw);
    let door = letters_of(raw);
    let fi = floor_idx(pre.floors@, fl);
    lemma_floor_idx_props(pre.floors@, fl);
    lemma_floor_idx_same_numbers(pre.floors@, mid.floors@, fl);
    let apts = pre.floors@[fi].apartments@;
    let midapts = mid.floors@[fi].apartments@;
    lemma_door_idx_props(apts, door);
    lemma_door_idx_same_doors(apts, midapts, door);
}


} // verus!
