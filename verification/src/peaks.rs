//! Peak records: reading the `latitude,longitude,name,elevation` table
//! that accompanies each elevation tile, and ordering peaks by height.
//!
//! Coordinates carry up to six decimal places and elevations are read to
//! the same precision, so values are held exactly in microunits (one
//! millionth of a degree or metre). Malformed rows are collected into one
//! aggregate error rather than failing on the first bad row.

use vstd::prelude::*;
use vstd::string::StrSliceExecFns;
use vstd::string::StringExecFns;

use crate::decimal::all_digits;
use crate::decimal::digits_value;
use crate::decimal::parse_digits_str;
use crate::decimal::pow10;

verus! {

/// One named peak: position and elevation in microunits.
#[derive(Debug, Clone, PartialEq)]
pub struct Peak {
    pub latitude_micro: i64,
    pub longitude_micro: i64,
    pub name: String,
    pub elevation_micro: i64,
}

/// Why the peak table could not be read.
#[derive(Debug, Clone, PartialEq)]
pub enum PeaksError {
    /// The first nonempty line is not the expected header.
    BadHeader,
    /// The listed data rows (counted from zero, header excluded) are
    /// malformed; all other rows parsed.
    MalformedRows(Vec<usize>),
}

/// The mathematical content of one peak row.
pub ghost struct PeakModel {
    pub lat: int,
    pub lon: int,
    pub name: Seq<char>,
    pub elev: int,
}

/// Whether the record carries exactly the row's content.
pub open spec fn peak_matches(p: Peak, m: PeakModel) -> bool {
    p.latitude_micro == m.lat && p.longitude_micro == m.lon && p.name@ == m.name
        && p.elevation_micro == m.elev
}

/// Index of the first occurrence of `c` in `s[from..to]`, or `to`.
pub open spec fn find_in(s: Seq<char>, from: int, to: int, c: char) -> int
    decreases to + 1 - from,
{
    if from >= to {
        to
    } else if s[from] == c {
        from
    } else {
        find_in(s, from + 1, to, c)
    }
}

/// What `find_in` finds: the first occurrence.
pub proof fn lemma_find_in(s: Seq<char>, from: int, to: int, c: char)
    requires
        from <= to,
    ensures
        from <= find_in(s, from, to, c) <= to,
        find_in(s, from, to, c) < to ==> s[find_in(s, from, to, c)] == c,
        forall|k: int| from <= k < find_in(s, from, to, c) ==> s[k] != c,
    decreases to - from,
{
    if from < to && s[from] != c {
        lemma_find_in(s, from + 1, to, c);
    }
}

/// An unsigned decimal with up to 12 integer digits and, after an
/// optional point, 1 to 6 fraction digits, in microunits.
pub open spec fn parse_unsigned_micro(s: Seq<char>, from: int, to: int) -> Option<int> {
    let dot = find_in(s, from, to, '.');
    if dot == to {
        if 1 <= to - from <= 12 && all_digits(s.subrange(from, to)) {
            Some(digits_value(s.subrange(from, to)) * 1_000_000 as int)
        } else {
            None
        }
    } else {
        let ip = s.subrange(from, dot);
        let fp = s.subrange(dot + 1, to);
        if 1 <= ip.len() <= 12 && all_digits(ip) && 1 <= fp.len() <= 6 && all_digits(fp) {
            Some(
                digits_value(ip) * 1_000_000 + digits_value(fp) * pow10((6 - fp.len()) as nat)
                    as int,
            )
        } else {
            None
        }
    }
}

/// A decimal number with an optional leading minus sign, in microunits.
pub open spec fn parse_decimal_micro(s: Seq<char>, from: int, to: int) -> Option<int> {
    if to - from >= 2 && s[from] == '-' {
        match parse_unsigned_micro(s, from + 1, to) {
            Some(v) => Some(-v),
            None => None,
        }
    } else {
        parse_unsigned_micro(s, from, to)
    }
}

/// One data row: four comma-separated fields; the first, second and
/// fourth are decimal numbers, the third is the peak's name.
pub open spec fn parse_row(line: Seq<char>) -> Option<PeakModel> {
    let n = line.len() as int;
    let c1 = find_in(line, 0, n, ',');
    let c2 = find_in(line, c1 + 1, n, ',');
    let c3 = find_in(line, c2 + 1, n, ',');
    if c1 < n && c2 < n && c3 < n && find_in(line, c3 + 1, n, ',') == n {
        match (parse_decimal_micro(line, 0, c1), parse_decimal_micro(line, c1 + 1, c2),
        parse_decimal_micro(line, c3 + 1, n)) {
            (Some(lat), Some(lon), Some(elev)) => Some(
                PeakModel { lat, lon, name: line.subrange(c2 + 1, c3), elev },
            ),
            _ => None,
        }
    } else {
        None
    }
}

/// The expected header line.
pub open spec fn header_chars() -> Seq<char> {
    "latitude,longitude,name,elevation"@
}

/// The state of a scan over the table's lines.
pub ghost struct ScanState {
    pub saw_header: bool,
    pub header_ok: bool,
    pub rows: int,
    pub peaks: Seq<PeakModel>,
    pub bad: Seq<int>,
}

/// The scan before any line.
pub open spec fn scan_init() -> ScanState {
    ScanState { saw_header: false, header_ok: false, rows: 0, peaks: Seq::empty(), bad: Seq::empty() }
}

/// One line of the scan: empty lines are skipped, the first nonempty
/// line must be the header, and every further nonempty line is a data
/// row, collected as a peak or as a malformed row index.
pub open spec fn scan_step(st: ScanState, line: Seq<char>) -> ScanState {
    if line.len() == 0 {
        st
    } else if !st.saw_header {
        ScanState { saw_header: true, header_ok: line == header_chars(), ..st }
    } else if !st.header_ok {
        st
    } else {
        match parse_row(line) {
            Some(m) => ScanState { rows: st.rows + 1, peaks: st.peaks.push(m), ..st },
            None => ScanState { rows: st.rows + 1, bad: st.bad.push(st.rows), ..st },
        }
    }
}

/// The line starting at `from`: up to the next newline, a trailing
/// carriage return dropped.
pub open spec fn line_end(s: Seq<char>, from: int) -> int {
    let nl = find_in(s, from, s.len() as int, '\n');
    if nl > from && s[nl - 1] == '\r' {
        nl - 1
    } else {
        nl
    }
}

/// Scans the lines of `s` from `from` onward.
pub open spec fn scan_lines(s: Seq<char>, from: int, st: ScanState) -> ScanState
    decreases s.len() + 2 - from,
    via scan_lines_decreases
{
    if from >= s.len() {
        st
    } else {
        let nl = find_in(s, from, s.len() as int, '\n');
        let line = s.subrange(from, line_end(s, from));
        scan_lines(s, nl + 1, scan_step(st, line))
    }
}

#[via_fn]
proof fn scan_lines_decreases(s: Seq<char>, from: int, st: ScanState) {
    if from < s.len() {
        lemma_find_in(s, from, s.len() as int, '\n');
    }
}

/// Once the header check failed, further lines change nothing.
proof fn lemma_scan_stuck(s: Seq<char>, from: int, st: ScanState)
    requires
        0 <= from,
        st.saw_header,
        !st.header_ok,
    ensures
        scan_lines(s, from, st) == st,
    decreases s.len() + 2 - from,
{
    if from < s.len() {
        let nl = find_in(s, from, s.len() as int, '\n');
        lemma_find_in(s, from, s.len() as int, '\n');
        let line = s.subrange(from, line_end(s, from));
        assert(scan_step(st, line) == st);
        lemma_scan_stuck(s, nl + 1, st);
    }
}

/// Index of the first occurrence of `c` in `s@[from..to]`, or `to`.
fn find_char(s: &str, from: usize, to: usize, c: char) -> (r: usize)
    requires
        from <= to <= s@.len(),
    ensures
        r as int == find_in(s@, from as int, to as int, c),
{
    proof {
        lemma_find_in(s@, from as int, to as int, c);
    }
    let mut i: usize = from;
    while i < to && s.get_char(i) != c
        invariant
            from <= i <= to <= s@.len(),
            forall|k: int| from <= k < i ==> s@[k] != c,
        decreases to - i,
    {
        i = i + 1;
    }
    proof {
        let f = find_in(s@, from as int, to as int, c);
        if f < i {
            assert(s@[f] == c);
        }
        if (i as int) < f {
            assert(s@[i as int] != c);
        }
    }
    i
}

/// The microunit value of the decimal in `s@[from..to]`, if it is one.
fn parse_decimal_micro_str(s: &str, from: usize, to: usize) -> (r: Option<i64>)
    requires
        from <= to <= s@.len(),
    ensures
        match r {
            Some(v) => parse_decimal_micro(s@, from as int, to as int) == Some(v as int),
            None => parse_decimal_micro(s@, from as int, to as int) is None,
        },
{
    if to - from >= 2 && s.get_char(from) == '-' {
        match parse_unsigned_micro_str(s, from + 1, to) {
            Some(v) => Some(-v),
            None => None,
        }
    } else {
        parse_unsigned_micro_str(s, from, to)
    }
}

/// The microunit value of the unsigned decimal in `s@[from..to]`.
fn parse_unsigned_micro_str(s: &str, from: usize, to: usize) -> (r: Option<i64>)
    requires
        from <= to <= s@.len(),
    ensures
        match r {
            Some(v) => parse_unsigned_micro(s@, from as int, to as int) == Some(v as int) && 0 <= v
                <= 1_000_000_000_000_000_000,
            None => parse_unsigned_micro(s@, from as int, to as int) is None,
        },
{
    let dot = find_char(s, from, to, '.');
    proof {
        lemma_find_in(s@, from as int, to as int, '.');
        assert(pow10(12) == 1_000_000_000_000) by {
            reveal_with_fuel(pow10, 13);
        }
    }
    if dot == to {
        if to - from >= 1 && to - from <= 12 {
            match parse_digits_str(s, from, to) {
                Some(v) => {
                    proof {
                        crate::decimal::lemma_digits_value_bound(
                            s@.subrange(from as int, to as int),
                        );
                        crate::decimal::lemma_pow10_increases((to - from) as nat, 12);
                    }
                    Some((v as i64) * 1_000_000)
                },
                None => None,
            }
        } else {
            None
        }
    } else {
        let ghost ip = s@.subrange(from as int, dot as int);
        let ghost fp = s@.subrange(dot + 1, to as int);
        if dot - from >= 1 && dot - from <= 12 && to - dot - 1 >= 1 && to - dot - 1 <= 6 {
            let iv = parse_digits_str(s, from, dot);
            let fv = parse_digits_str(s, dot + 1, to);
            match (iv, fv) {
                (Some(a), Some(b)) => {
                    let scale: u64 = match to - dot - 1 {
                        1 => 100_000,
                        2 => 10_000,
                        3 => 1_000,
                        4 => 100,
                        5 => 10,
                        _ => 1,
                    };
                    proof {
                        crate::decimal::lemma_digits_value_bound(ip);
                        crate::decimal::lemma_digits_value_bound(fp);
                        crate::decimal::lemma_pow10_increases((dot - from) as nat, 12);
                        assert(scale as int == pow10((6 - fp.len()) as nat)) by {
                            reveal_with_fuel(pow10, 13);
                        }
                        assert(digits_value(fp) * pow10((6 - fp.len()) as nat) < 1_000_000) by {
                            let k = fp.len();
                            assert(pow10(k as nat) * pow10((6 - k) as nat) == pow10(6)) by {
                                lemma_pow10_add(k as nat, (6 - k) as nat);
                            }
                            assert(digits_value(fp) * pow10((6 - k) as nat) <= (pow10(k as nat)
                                - 1) * pow10((6 - k) as nat)) by (nonlinear_arith)
                                requires
                                    digits_value(fp) <= pow10(k as nat) - 1,
                                    pow10((6 - k) as nat) >= 0,
                            ;
                            assert((pow10(k as nat) - 1) * pow10((6 - k) as nat) < pow10(k as nat)
                                * pow10((6 - k) as nat)) by (nonlinear_arith)
                                requires
                                    pow10((6 - k) as nat) >= 1,
                            ;
                            assert(pow10(6) == 1_000_000) by {
                                reveal_with_fuel(pow10, 7);
                            }
                        }
                    }
                    Some((a as i64) * 1_000_000 + (b * scale) as i64)
                },
                _ => None,
            }
        } else {
            None
        }
    }
}

/// Powers of ten multiply by adding exponents.
proof fn lemma_pow10_add(a: nat, b: nat)
    ensures
        pow10(a) * pow10(b) == pow10(a + b),
    decreases a,
{
    if a == 0 {
        assert(pow10(0) == 1) by {
            reveal_with_fuel(pow10, 1);
        }
    } else {
        lemma_pow10_add((a - 1) as nat, b);
        assert(pow10(a) * pow10(b) == 10 * (pow10((a - 1) as nat) * pow10(b))) by (nonlinear_arith)
            requires
                pow10(a) == 10 * pow10((a - 1) as nat),
        ;
        assert(pow10(a + b) == 10 * pow10((a + b - 1) as nat));
        assert((a - 1) as nat + b == (a + b - 1) as nat);
    }
}

/// Reads one data row.
fn parse_row_str(line: &str) -> (r: Option<Peak>)
    ensures
        match r {
            Some(p) => parse_row(line@) matches Some(m) && peak_matches(p, m),
            None => parse_row(line@) is None,
        },
{
    let n = line.unicode_len();
    let c1 = find_char(line, 0, n, ',');
    proof {
        lemma_find_in(line@, 0, n as int, ',');
    }
    if c1 == n {
        return None;
    }
    let c2 = find_char(line, c1 + 1, n, ',');
    proof {
        lemma_find_in(line@, c1 + 1, n as int, ',');
    }
    if c2 == n {
        return None;
    }
    let c3 = find_char(line, c2 + 1, n, ',');
    proof {
        lemma_find_in(line@, c2 + 1, n as int, ',');
    }
    if c3 == n {
        return None;
    }
    let c4 = find_char(line, c3 + 1, n, ',');
    if c4 != n {
        return None;
    }
    let lat = parse_decimal_micro_str(line, 0, c1);
    let lon = parse_decimal_micro_str(line, c1 + 1, c2);
    let elev = parse_decimal_micro_str(line, c3 + 1, n);
    match (lat, lon, elev) {
        (Some(lat), Some(lon), Some(elev)) => {
            let name = line.substring_char(c2 + 1, c3).to_owned();
            Some(
                Peak {
                    latitude_micro: lat,
                    longitude_micro: lon,
                    name,
                    elevation_micro: elev,
                },
            )
        },
        _ => None,
    }
}

/// Reads the peak table: the header line, then one row per peak. Empty
/// lines are skipped; an empty input yields no peaks. Rows that do not
/// parse are collected, by index, into one aggregate error.
pub fn read_peaks(input: &str) -> (r: Result<Vec<Peak>, PeaksError>)
    requires
        input@.len() < usize::MAX,
    ensures
        ({
            let fin = scan_lines(input@, 0, scan_init());
            &&& !fin.saw_header ==> (r matches Ok(ps) && ps@.len() == 0)
            &&& fin.saw_header && !fin.header_ok ==> r == Err::<Vec<Peak>, PeaksError>(
                PeaksError::BadHeader,
            )
            &&& fin.header_ok ==> if fin.bad.len() == 0 {
                r matches Ok(ps) && ps@.len() == fin.peaks.len() && (forall|i: int|
                    0 <= i < ps@.len() ==> peak_matches(#[trigger] ps@[i], fin.peaks[i]))
            } else {
                r matches Err(e) && e matches PeaksError::MalformedRows(ix) && ix@.len()
                    == fin.bad.len() && (forall|i: int|
                    0 <= i < ix@.len() ==> (#[trigger] ix@[i]) as int == fin.bad[i])
            }
        }),
{
    let ghost fin = scan_lines(input@, 0, scan_init());
    let n = input.unicode_len();
    let mut cursor: usize = 0;
    let mut saw_header: bool = false;
    let mut peaks: Vec<Peak> = Vec::new();
    let mut bad: Vec<usize> = Vec::new();
    let mut rows: usize = 0;
    let ghost mut st = scan_init();
    while cursor < n
        invariant
            0 <= cursor <= n,
            n == input@.len(),
            st.saw_header == saw_header,
            saw_header ==> st.header_ok,
            !saw_header ==> st == scan_init(),
            st.rows == rows as int,
            rows <= cursor,
            peaks@.len() == st.peaks.len(),
            forall|i: int| 0 <= i < peaks@.len() ==> peak_matches(#[trigger] peaks@[i], st.peaks[i]),
            bad@.len() == st.bad.len(),
            forall|i: int| 0 <= i < bad@.len() ==> (#[trigger] bad@[i]) as int == st.bad[i],
            fin == scan_lines(input@, cursor as int, st),
            fin == scan_lines(input@, 0, scan_init()),
        decreases n - cursor,
    {
        let nl = find_char(input, cursor, n, '\n');
        proof {
            lemma_find_in(input@, cursor as int, n as int, '\n');
        }
        let mut end = nl;
        if nl > cursor && input.get_char(nl - 1) == '\r' {
            end = nl - 1;
        }
        proof {
            assert(end as int == line_end(input@, cursor as int));
        }
        let ghost line = input@.subrange(cursor as int, end as int);
        let ghost st_next = scan_step(st, line);
        if end == cursor {
            // empty line
            proof {
                assert(line =~= Seq::<char>::empty());
                assert(st_next == st);
            }
        } else if !saw_header {
            let line_str = input.substring_char(cursor, end);
            let header = String::from_str("latitude,longitude,name,elevation");
            let line_string = line_str.to_owned();
            if !(line_string == header) {
                proof {
                    assert(st_next.saw_header && !st_next.header_ok);
                    lemma_scan_stuck(input@, nl + 1, st_next);
                }
                return Err(PeaksError::BadHeader);
            }
            saw_header = true;
        } else {
            let line_str = input.substring_char(cursor, end);
            match parse_row_str(line_str) {
                Some(p) => {
                    peaks.push(p);
                },
                None => {
                    bad.push(rows);
                },
            }
            rows = rows + 1;
        }
        proof {
            assert(scan_lines(input@, cursor as int, st) == scan_lines(input@, nl + 1, st_next));
            st = st_next;
        }
        if nl == n {
            proof {
                assert(scan_lines(input@, nl + 1, st) == st);
                assert(scan_lines(input@, n as int, st) == st);
            }
            cursor = n;
        } else {
            cursor = nl + 1;
        }
    }
    proof {
        assert(scan_lines(input@, cursor as int, st) == st);
        assert(fin == st);
    }
    if !saw_header {
        return Ok(peaks);
    }
    if bad.len() == 0 {
        Ok(peaks)
    } else {
        Err(PeaksError::MalformedRows(bad))
    }
}

/// Whether the peaks are ordered highest-first.
pub open spec fn elevation_sorted_desc(s: Seq<Peak>) -> bool {
    forall|i: int, j: int|
        0 <= i < j < s.len() ==> (#[trigger] s[i]).elevation_micro >= (
        #[trigger] s[j]).elevation_micro
}

/// Orders the peaks highest-first, keeping exactly the given records;
/// peaks of equal elevation keep their order.
pub fn sort_peaks_by_elevation(peaks: Vec<Peak>) -> (r: Vec<Peak>)
    ensures
        r@.to_multiset() == peaks@.to_multiset(),
        elevation_sorted_desc(r@),
{
    let mut input = peaks;
    let mut out: Vec<Peak> = Vec::new();
    proof {
        broadcast use vstd::seq_lib::group_to_multiset_ensures;

        assert(out@ =~= Seq::<Peak>::empty());
        assert(out@.to_multiset().add(input@.to_multiset()) =~= peaks@.to_multiset());
    }
    while input.len() > 0
        invariant
            out@.to_multiset().add(input@.to_multiset()) == peaks@.to_multiset(),
            elevation_sorted_desc(out@),
        decreases input@.len(),
    {
        let ghost input0 = input@;
        let x = input.remove(0);
        proof {
            broadcast use vstd::seq_lib::group_to_multiset_ensures;

            assert(input0.remove(0).to_multiset() =~= input0.to_multiset().remove(input0[0]));
            assert(input0.to_multiset().count(input0[0]) > 0);
        }
        let mut j: usize = 0;
        while j < out.len() && out[j].elevation_micro >= x.elevation_micro
            invariant
                0 <= j <= out@.len(),
                forall|k: int|
                    0 <= k < j ==> (#[trigger] out@[k]).elevation_micro >= x.elevation_micro,
            decreases out@.len() - j,
        {
            j = j + 1;
        }
        let ghost out0 = out@;
        out.insert(j, x);
        proof {
            broadcast use vstd::seq_lib::group_to_multiset_ensures;

            out0.insert_ensures(j as int, x);
            crate::seq_facts::lemma_insert_to_multiset(out0, j as int, x);
            assert(out@.to_multiset().add(input@.to_multiset()) =~= peaks@.to_multiset());
            assert forall|p: int, q: int| 0 <= p < q < out@.len() implies (
            #[trigger] out@[p]).elevation_micro >= (#[trigger] out@[q]).elevation_micro by {
                if q <= j {
                    assert(out@[p] == out0[p] && (q == j ==> out@[q] == x) && (q < j ==> out@[q]
                        == out0[q]));
                } else if p < j {
                    assert(out@[q] == out0[q - 1]);
                } else if p == j {
                    assert(out@[p] == x && out@[q] == out0[q - 1]);
                } else {
                    assert(out@[p] == out0[p - 1] && out@[q] == out0[q - 1]);
                }
            }
        }
    }
    proof {
        assert(input@ =~= Seq::<Peak>::empty());
        assert(out@.to_multiset().add(input@.to_multiset()) =~= out@.to_multiset());
    }
    out
}

} // verus!
