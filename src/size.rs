//! Byte totals of build-output directories and their rendering as
//! binary-magnitude strings ("512B", "2.0MB"), and the reverse reading.
use vstd::prelude::*;
use vstd::string::*;
use crate::walk::{names_view, paths_view, child_paths, copy_path, copy_bytes};

verus! {

pub const KB: u64 = 1024;
pub const MB: u64 = 1048576;
pub const GB: u64 = 1073741824;
pub const TB: u64 = 1099511627776;

pub open spec fn digit_char(d: nat) -> char {
    if d == 0 { '0' } else if d == 1 { '1' } else if d == 2 { '2' } else if d == 3 { '3' }
    else if d == 4 { '4' } else if d == 5 { '5' } else if d == 6 { '6' } else if d == 7 { '7' }
    else if d == 8 { '8' } else { '9' }
}

/// The decimal digits of `n`, without leading zeros.
pub open spec fn decimal(n: nat) -> Seq<char>
    decreases n,
{
    if n < 10 {
        seq![digit_char(n)]
    } else {
        decimal(n / 10).push(digit_char(n % 10))
    }
}

/// `n / unit` with one truncated decimal place, then the unit's suffix.
pub open spec fn scaled(n: nat, unit: nat, suffix: Seq<char>) -> Seq<char>
    recommends
        unit > 0,
{
    decimal(n / unit) + seq!['.', digit_char(((n % unit) * 10) / unit)] + suffix
}

/// The rendering of a byte count: whole bytes below 1KB, otherwise the
/// largest of KB, MB and GB that fits, with one truncated decimal.
pub open spec fn size_text(n: nat) -> Seq<char> {
    if n >= GB {
        scaled(n, GB as nat, seq!['G', 'B'])
    } else if n >= MB {
        scaled(n, MB as nat, seq!['M', 'B'])
    } else if n >= KB {
        scaled(n, KB as nat, seq!['K', 'B'])
    } else {
        decimal(n).push('B')
    }
}

fn digit_of(d: u64) -> (c: char)
    requires
        d < 10,
    ensures
        c == digit_char(d as nat),
{
    if d == 0 { '0' } else if d == 1 { '1' } else if d == 2 { '2' } else if d == 3 { '3' }
    else if d == 4 { '4' } else if d == 5 { '5' } else if d == 6 { '6' } else if d == 7 { '7' }
    else if d == 8 { '8' } else { '9' }
}

fn push_decimal(n: u64, out: &mut Vec<char>)
    ensures
        final(out)@ == old(out)@ + decimal(n as nat),
    decreases n,
{
    if n < 10 {
        out.push(digit_of(n));
        assert(decimal(n as nat) == seq![digit_char(n as nat)]);
    } else {
        push_decimal(n / 10, out);
        out.push(digit_of(n % 10));
    }
    assert(final(out)@ =~= old(out)@ + decimal(n as nat));
}

/// Relies on `String: FromIterator<&char>`: the characters, in order.
#[verifier::external_body]
fn string_of_chars(v: &Vec<char>) -> (r: String)
    ensures
        r@ == v@,
{
    v.iter().collect()
}

fn push_scaled(n: u64, unit: u64, suffix: char, out: &mut Vec<char>)
    requires
        unit == KB || unit == MB || unit == GB,
    ensures
        final(out)@ == old(out)@ + scaled(n as nat, unit as nat, seq![suffix, 'B']),
{
    push_decimal(n / unit, out);
    out.push('.');
    let rem = n % unit;
    assert(rem * 10 <= u64::MAX) by {
        assert(rem < unit);
    }
    let tenth = (rem * 10) / unit;
    assert(tenth < 10) by (nonlinear_arith)
        requires
            rem < unit,
            tenth as int == (rem as int * 10) / (unit as int),
            unit > 0,
    ;
    out.push(digit_of(tenth));
    out.push(suffix);
    out.push('B');
    assert(final(out)@ =~= old(out)@ + scaled(n as nat, unit as nat, seq![suffix, 'B']));
}

/// Renders a byte count as `size_text` describes.
pub fn format_size(n: u64) -> (r: String)
    ensures
        r@ == size_text(n as nat),
{
    let mut out: Vec<char> = Vec::new();
    if n >= GB {
        push_scaled(n, GB, 'G', &mut out);
    } else if n >= MB {
        push_scaled(n, MB, 'M', &mut out);
    } else if n >= KB {
        push_scaled(n, KB, 'K', &mut out);
    } else {
        push_decimal(n, &mut out);
        out.push('B');
    }
    assert(out@ =~= size_text(n as nat));
    string_of_chars(&out)
}

/// The running byte total of a directory tree: the sum of the file sizes
/// added so far, held at `u64::MAX` should it ever exceed it.
pub struct SizeTally {
    pub total: u64,
    pub exact: Ghost<nat>,
}

impl SizeTally {
    pub open spec fn wf(&self) -> bool {
        self.total as nat == if self.exact@ > u64::MAX as nat { u64::MAX as nat } else { self.exact@ }
    }

    pub fn new() -> (r: SizeTally)
        ensures
            r.wf(),
            r.exact@ == 0,
            r.total == 0,
    {
        SizeTally { total: 0, exact: Ghost(0) }
    }

    /// Adds one file's size. A file that could not be measured adds zero.
    pub fn add(&mut self, len: u64)
        requires
            old(self).wf(),
        ensures
            final(self).wf(),
            final(self).exact@ == old(self).exact@ + len,
    {
        self.total = self.total.saturating_add(len);
        self.exact = Ghost((self.exact@ + len) as nat);
    }

    /// The total, rendered.
    pub fn render(&self) -> (r: String)
        requires
            self.wf(),
        ensures
            r@ == size_text(self.total as nat),
    {
        format_size(self.total)
    }
}

pub open spec fn sum_of(s: Seq<u64>) -> nat
    decreases s.len(),
{
    if s.len() == 0 { 0 } else { (sum_of(s.drop_last()) + s.last()) as nat }
}

/// The measurement of a directory tree: every subdirectory is entered (a
/// build-output directory may hold anything), and the sizes of the files
/// met are summed. The caller lists the directory that `next_dir` names and
/// hands back its subdirectories and file sizes.
pub struct SizeWalk {
    pending: Vec<Vec<Vec<u8>>>,
    tally: SizeTally,
}

impl SizeWalk {
    /// Directories still to list, the next one last.
    pub closed spec fn pending(&self) -> Seq<Seq<Seq<u8>>> {
        paths_view(self.pending@)
    }

    /// The bytes of the files met so far.
    pub closed spec fn bytes(&self) -> nat {
        self.tally.exact@
    }

    pub closed spec fn wf(&self) -> bool {
        self.tally.wf()
    }

    /// A measurement starting at the tree's root, the empty path.
    pub fn new() -> (r: SizeWalk)
        ensures
            r.wf(),
            r.pending() == seq![Seq::<Seq<u8>>::empty()],
            r.bytes() == 0,
    {
        let mut pending: Vec<Vec<Vec<u8>>> = Vec::new();
        pending.push(Vec::new());
        let r = SizeWalk { pending, tally: SizeTally::new() };
        assert(names_view(r.pending@[0]@) =~= Seq::<Seq<u8>>::empty());
        assert(r.pending() =~= seq![Seq::<Seq<u8>>::empty()]);
        r
    }

    /// The directory to list next, relative to the measured root, or `None`
    /// when every one was listed.
    pub fn next_dir(&self) -> (r: Option<Vec<Vec<u8>>>)
        ensures
            match r {
                Some(p) => self.pending().len() > 0 && names_view(p@) == self.pending().last(),
                None => self.pending().len() == 0,
            },
    {
        if self.pending.len() == 0 {
            None
        } else {
            Some(copy_path(&self.pending[self.pending.len() - 1]))
        }
    }

    /// Takes the listing of the directory `next_dir` named: its
    /// subdirectories are to be listed, its files' sizes are added. A file
    /// that could not be measured has size zero; an unreadable directory
    /// has an empty listing.
    pub fn advance(&mut self, subdirs: Vec<Vec<u8>>, file_sizes: Vec<u64>)
        requires
            old(self).wf(),
            old(self).pending().len() > 0,
        ensures
            final(self).wf(),
            final(self).bytes() == old(self).bytes() + sum_of(file_sizes@),
            final(self).pending() == old(self).pending().drop_last() + child_paths(
                old(self).pending().last(),
                names_view(subdirs@),
            ),
    {
        let ghost old_pending = self.pending();
        let dir = self.pending.pop().unwrap();
        assert(self.pending() =~= old_pending.drop_last());
        let mut i: usize = 0;
        while i < subdirs.len()
            invariant
                i <= subdirs@.len(),
                names_view(dir@) == old_pending.last(),
                self.tally.wf(),
                self.tally.exact@ == old(self).tally.exact@,
                self.pending() == old_pending.drop_last() + child_paths(
                    old_pending.last(),
                    names_view(subdirs@).take(i as int),
                ),
            decreases subdirs.len() - i,
        {
            let ghost before = self.pending();
            let mut child = copy_path(&dir);
            child.push(copy_bytes(&subdirs[i]));
            assert(names_view(child@) =~= names_view(dir@).push(subdirs@[i as int]@));
            self.pending.push(child);
            assert(self.pending() =~= before.push(names_view(child@)));
            assert(child_paths(old_pending.last(), names_view(subdirs@).take(i + 1)) =~= child_paths(
                old_pending.last(),
                names_view(subdirs@).take(i as int),
            ).push(names_view(child@)));
            i += 1;
        }
        assert(names_view(subdirs@).take(i as int) =~= names_view(subdirs@));
        let mut k: usize = 0;
        let ghost start = self.tally.exact@;
        while k < file_sizes.len()
            invariant
                k <= file_sizes@.len(),
                self.tally.wf(),
                start == old(self).tally.exact@,
                self.pending() == old_pending.drop_last() + child_paths(old_pending.last(), names_view(subdirs@)),
                self.tally.exact@ == start + sum_of(file_sizes@.take(k as int)),
            decreases file_sizes.len() - k,
        {
            assert(file_sizes@.take(k + 1).drop_last() =~= file_sizes@.take(k as int));
            self.tally.add(file_sizes[k]);
            k += 1;
        }
        assert(file_sizes@.take(k as int) =~= file_sizes@);
    }

    /// The bytes met so far, held at `u64::MAX`.
    pub fn total(&self) -> (r: u64)
        requires
            self.wf(),
        ensures
            r == if self.bytes() > u64::MAX { u64::MAX as nat } else { self.bytes() },
    {
        self.tally.total
    }

    /// The total, rendered.
    pub fn render(&self) -> (r: String)
        requires
            self.wf(),
        ensures
            r@ == size_text(if self.bytes() > u64::MAX { u64::MAX as nat } else { self.bytes() }),
    {
        self.tally.render()
    }
}

/// What a reading of a size string has gathered so far.
pub struct SizeScan {
    /// The value of the digits before the decimal point.
    pub whole: nat,
    /// The value of the first nine digits after the decimal point.
    pub frac: nat,
    /// How many digits `frac` holds.
    pub frac_len: nat,
    pub dots: nat,
    pub digits: nat,
    /// The letters, with those of the units upper-cased.
    pub unit: Seq<char>,
}

pub open spec fn is_digit(c: char) -> bool {
    '0' <= c && c <= '9'
}

pub open spec fn is_ascii_letter(c: char) -> bool {
    ('a' <= c && c <= 'z') || ('A' <= c && c <= 'Z')
}

/// The upper-case form of the letters that units are spelled with; other
/// characters stay as they are (no unit holds them in either case).
pub open spec fn unit_letter(c: char) -> char {
    if c == 'b' { 'B' } else if c == 'k' { 'K' } else if c == 'm' { 'M' }
    else if c == 'g' { 'G' } else if c == 't' { 'T' } else { c }
}

pub open spec fn digit_value(c: char) -> nat {
    ((c as u32) - ('0' as u32)) as nat
}

/// The most fractional digits a size string contributes; later ones are
/// ignored.
pub const MAX_FRAC_DIGITS: u64 = 9;

/// Reads a size string character by character: digits and the decimal
/// point make the number, ASCII letters the unit, anything else is ignored.
pub open spec fn size_scan(s: Seq<char>) -> SizeScan
    decreases s.len(),
{
    if s.len() == 0 {
        SizeScan { whole: 0, frac: 0, frac_len: 0, dots: 0, digits: 0, unit: Seq::empty() }
    } else {
        let st = size_scan(s.drop_last());
        let c = s.last();
        if is_digit(c) {
            if st.dots == 0 {
                SizeScan { whole: st.whole * 10 + digit_value(c), digits: st.digits + 1, ..st }
            } else if st.frac_len < MAX_FRAC_DIGITS {
                SizeScan {
                    frac: st.frac * 10 + digit_value(c),
                    frac_len: st.frac_len + 1,
                    digits: st.digits + 1,
                    ..st
                }
            } else {
                SizeScan { digits: st.digits + 1, ..st }
            }
        } else if c == '.' {
            SizeScan { dots: st.dots + 1, ..st }
        } else if is_ascii_letter(c) {
            SizeScan { unit: st.unit.push(unit_letter(c)), ..st }
        } else {
            st
        }
    }
}

/// The bytes in one of the units B, KB, MB, GB, TB.
pub open spec fn unit_bytes(u: Seq<char>) -> Option<nat> {
    if u == seq!['B'] {
        Some(1)
    } else if u == seq!['K', 'B'] {
        Some(KB as nat)
    } else if u == seq!['M', 'B'] {
        Some(MB as nat)
    } else if u == seq!['G', 'B'] {
        Some(GB as nat)
    } else if u == seq!['T', 'B'] {
        Some(TB as nat)
    } else {
        None
    }
}

pub open spec fn pow10(n: nat) -> nat
    decreases n,
{
    if n == 0 { 1 } else { 10 * pow10((n - 1) as nat) }
}

/// The byte count a size string stands for, truncated to a whole byte and
/// held at `u64::MAX`: `None` where the number has no digit or more than one
/// decimal point, or the unit is not one of B, KB, MB, GB, TB (in any case).
pub open spec fn size_value(s: Seq<char>) -> Option<nat> {
    let st = size_scan(s);
    if st.dots > 1 || st.digits == 0 {
        None
    } else {
        match unit_bytes(st.unit) {
            None => None,
            Some(m) => {
                let v = st.whole * m + (st.frac * m) / pow10(st.frac_len);
                Some(if v > u64::MAX as nat { u64::MAX as nat } else { v })
            },
        }
    }
}

fn unit_of(u: &Vec<char>) -> (r: Option<u64>)
    ensures
        match unit_bytes(u@) {
            None => r is None,
            Some(m) => r == Some(m as u64),
        },
{
    if u.len() == 1 && u[0] == 'B' {
        assert(u@ =~= seq!['B']);
        Some(1)
    } else if u.len() == 2 && u[1] == 'B' && (u[0] == 'K' || u[0] == 'M' || u[0] == 'G' || u[0] == 'T') {
        if u[0] == 'K' {
            assert(u@ =~= seq!['K', 'B']);
            Some(KB)
        } else if u[0] == 'M' {
            assert(u@ =~= seq!['M', 'B']);
            Some(MB)
        } else if u[0] == 'G' {
            assert(u@ =~= seq!['G', 'B']);
            Some(GB)
        } else {
            assert(u@ =~= seq!['T', 'B']);
            Some(TB)
        }
    } else {
        assert(u@ != seq!['B']);
        assert(u@ != seq!['K', 'B']);
        assert(u@ != seq!['M', 'B']);
        assert(u@ != seq!['G', 'B']);
        assert(u@ != seq!['T', 'B']);
        None
    }
}

/// `2^64`: past this, the whole part alone exceeds every byte count.
const WHOLE_CAP: u128 = 18446744073709551616;

proof fn lemma_pow10_bound(n: nat)
    requires
        n <= 9,
    ensures
        1 <= pow10(n) <= 1000000000,
{
    reveal_with_fuel(pow10, 10);
    assert(n == 0 || n == 1 || n == 2 || n == 3 || n == 4 || n == 5 || n == 6 || n == 7 || n == 8
        || n == 9);
}

/// Reads a size string such as "100MB", "1.5gb" or "512B" as `size_value`
/// describes.
pub fn parse_size(s: &str) -> (r: Option<u64>)
    ensures
        match size_value(s@) {
            None => r is None,
            Some(v) => r == Some(v as u64),
        },
{
    let n = s.unicode_len();
    let mut whole: u128 = 0;
    let mut frac: u64 = 0;
    let mut frac_len: u64 = 0;
    let mut dots: u64 = 0;
    let mut digits: u64 = 0;
    let mut unit: Vec<char> = Vec::new();
    let mut i: usize = 0;
    while i < n
        invariant
            n == s@.len(),
            i <= n,
            ({
                let st = size_scan(s@.subrange(0, i as int));
                &&& whole as nat == if st.whole > WHOLE_CAP as nat { WHOLE_CAP as nat } else { st.whole }
                &&& frac as nat == st.frac
                &&& frac_len as nat == st.frac_len
                &&& frac_len <= MAX_FRAC_DIGITS
                &&& frac < pow10(frac_len as nat)
                &&& dots as nat == st.dots
                &&& digits as nat == st.digits
                &&& unit@ == st.unit
            }),
            dots <= i,
            digits <= i,
        decreases n - i,
    {
        let c = s.get_char(i);
        let ghost pre = s@.subrange(0, i as int);
        let ghost st = size_scan(pre);
        assert(s@.subrange(0, i + 1).drop_last() =~= pre);
        assert(s@.subrange(0, i + 1).last() == c);
        if '0' <= c && c <= '9' {
            let d = (c as u32 - '0' as u32) as u64;
            assert(d as nat == digit_value(c));
            if dots == 0 {
                let next = whole * 10 + d as u128;
                whole = if next > WHOLE_CAP { WHOLE_CAP } else { next };
            } else if frac_len < MAX_FRAC_DIGITS {
                proof {
                    lemma_pow10_bound(frac_len as nat);
                    assert(pow10((frac_len + 1) as nat) == 10 * pow10(frac_len as nat));
                }
                frac = frac * 10 + d;
                frac_len = frac_len + 1;
            }
            digits = digits + 1;
        } else if c == '.' {
            dots = dots + 1;
        } else if ('a' <= c && c <= 'z') || ('A' <= c && c <= 'Z') {
            let u = if c == 'b' { 'B' } else if c == 'k' { 'K' } else if c == 'm' { 'M' }
                else if c == 'g' { 'G' } else if c == 't' { 'T' } else { c };
            unit.push(u);
        }
        i += 1;
    }
    assert(s@.subrange(0, n as int) =~= s@);
    let ghost st = size_scan(s@);
    if dots > 1 || digits == 0 {
        return None;
    }
    let m = match unit_of(&unit) {
        None => {
            return None;
        },
        Some(m) => m,
    };
    proof {
        lemma_pow10_bound(frac_len as nat);
    }
    let p: u64 = pow10_exec(frac_len);
    assert(frac as u128 * m as u128 <= 1000000000u128 * 1099511627776u128) by (nonlinear_arith)
        requires
            frac < 1000000000,
            m <= 1099511627776,
    ;
    let part = (frac as u128 * m as u128) / (p as u128);
    assert(whole * m as u128 <= 18446744073709551616u128 * 1099511627776u128) by (nonlinear_arith)
        requires
            whole <= 18446744073709551616,
            m <= 1099511627776,
    ;
    let v = whole * (m as u128) + part;
    let ghost exact = st.whole * m + (st.frac * m) as int / pow10(st.frac_len) as int;
    proof {
        if st.whole > WHOLE_CAP as nat {
            assert(st.whole * m >= st.whole) by (nonlinear_arith)
                requires
                    m >= 1,
            ;
            assert(whole * m as u128 >= WHOLE_CAP) by (nonlinear_arith)
                requires
                    m >= 1,
                    whole == WHOLE_CAP,
            ;
        }
    }
    if v > u64::MAX as u128 {
        Some(u64::MAX)
    } else {
        Some(v as u64)
    }
}

fn pow10_exec(n: u64) -> (r: u64)
    requires
        n <= 9,
    ensures
        r as nat == pow10(n as nat),
{
    let mut r: u64 = 1;
    let mut i: u64 = 0;
    while i < n
        invariant
            i <= n <= 9,
            r as nat == pow10(i as nat),
        decreases n - i,
    {
        proof {
            lemma_pow10_bound(i as nat);
            assert(pow10((i + 1) as nat) == 10 * pow10(i as nat));
        }
        r = r * 10;
        i += 1;
    }
    r
}

} // verus!
