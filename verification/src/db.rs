//! The OUI database: record parsing and prefix lookup.
//!
//! The database is line-oriented text. Blank lines and lines starting with
//! `#` separate record blocks; each block is a MAC line followed
//! unconditionally by a vendor line. The MAC line carries the OUI prefix
//! text from a fixed offset up to the first `*`; the vendor line carries
//! the vendor name after a fixed-width field, without its line terminator.

use crate::mac::{is_lower_hex_digit, lemma_normalize_hex_only, normalize_mac_str, normalize_spec};
use vstd::prelude::*;

verus! {

/// Characters of a MAC line discarded before the OUI prefix text begins.
pub const MAC_LINE_SKIP: usize = 4;

/// Characters of a vendor line occupied by the fixed-width field before
/// the vendor name.
pub const VENDOR_LINE_SKIP: usize = 22;

/// One database entry: a normalized OUI prefix and the vendor's display name.
pub struct OuiRecord {
    pub mac_str: String,
    pub vendor: String,
}

/// The whole database, in file order.
pub struct OuiDb {
    pub records: Vec<OuiRecord>,
}

impl View for OuiRecord {
    type V = (Seq<char>, Seq<char>);

    open spec fn view(&self) -> Self::V {
        (self.mac_str@, self.vendor@)
    }
}

impl View for OuiDb {
    type V = Seq<(Seq<char>, Seq<char>)>;

    open spec fn view(&self) -> Self::V {
        self.records@.map_values(|r: OuiRecord| (r.mac_str@, r.vendor@))
    }
}

/// A well-formed record's prefix holds lowercase hex digits only.
pub open spec fn record_wf(r: (Seq<char>, Seq<char>)) -> bool {
    forall|i: int| 0 <= i < r.0.len() ==> is_lower_hex_digit(#[trigger] r.0[i])
}

/// A blank line is exactly a line terminator: zero content before it.
/// A final unterminated line with content is not blank, however short,
/// and starts a record block.
pub open spec fn is_blank_line(line: Seq<char>) -> bool {
    line.len() == 1 && line[0] == '\n'
}

/// A comment line starts with `#`.
pub open spec fn is_comment_line(line: Seq<char>) -> bool {
    line.len() > 0 && line[0] == '#'
}

/// The part of a MAC line after the discarded leading field; empty when
/// the line is no longer than that field.
pub open spec fn after_mac_skip(line: Seq<char>) -> Seq<char> {
    if line.len() <= MAC_LINE_SKIP {
        Seq::empty()
    } else {
        line.skip(MAC_LINE_SKIP as int)
    }
}

/// The index of the first `*` in `s`, or `s.len()` when there is none.
pub open spec fn star_limit(s: Seq<char>) -> int
    decreases s.len(),
{
    if s.len() == 0 {
        0
    } else if s[0] == '*' {
        0
    } else {
        1 + star_limit(s.drop_first())
    }
}

/// `star_limit` is pinned down by its two defining properties: no `*`
/// before it, and a `*` (or the end of the sequence) at it.
proof fn lemma_star_limit_is(s: Seq<char>, k: int)
    requires
        0 <= k <= s.len(),
        forall|j: int| 0 <= j < k ==> s[j] != '*',
        k < s.len() ==> s[k] == '*',
    ensures
        star_limit(s) == k,
    decreases s.len(),
{
    if s.len() > 0 && k > 0 {
        assert(s[0] != '*');
        let t = s.drop_first();
        assert forall|j: int| 0 <= j < k - 1 implies t[j] != '*' by {
            assert(t[j] == s[j + 1]);
        }
        if k - 1 < t.len() {
            assert(t[k - 1] == s[k]);
        }
        lemma_star_limit_is(t, k - 1);
    }
}

/// The OUI prefix text of a MAC line: everything after the leading field
/// up to, but not including, the first `*`; the whole remainder when the
/// line has no `*`.
pub open spec fn prefix_text(line: Seq<char>) -> Seq<char> {
    let t = after_mac_skip(line);
    t.subrange(0, star_limit(t))
}

/// The normalized OUI prefix a MAC line yields.
pub open spec fn mac_of_line(line: Seq<char>) -> Seq<char> {
    normalize_spec(prefix_text(line))
}

/// The vendor text of a vendor line: everything after the fixed-width
/// field, without the final character (the line terminator); empty when
/// the line is too short for both.
pub open spec fn vendor_of_line(line: Seq<char>) -> Seq<char> {
    if line.len() >= VENDOR_LINE_SKIP + 1 {
        line.subrange(VENDOR_LINE_SKIP as int, line.len() - 1)
    } else {
        Seq::empty()
    }
}

/// Extracts the OUI prefix from a MAC line into `r.mac_str`, leaving the
/// vendor field alone.
pub fn parse_mac_line(line: &String, r: &mut OuiRecord)
    ensures
        final(r).mac_str@ == mac_of_line(line@),
        final(r).vendor == old(r).vendor,
{
    let st: &str = line.as_str();
    let n: usize = st.unicode_len();
    let ghost t = after_mac_skip(line@);

    // Find the first `*` after the leading field, if any.
    let mut k: usize = MAC_LINE_SKIP;
    while k < n && st.get_char(k) != '*'
        invariant
            st@ == line@,
            n == line@.len(),
            MAC_LINE_SKIP <= k <= n || (n < MAC_LINE_SKIP && k == MAC_LINE_SKIP),
            t == after_mac_skip(line@),
            forall|j: int| 0 <= j < k - MAC_LINE_SKIP ==> t[j] != '*',
        decreases n - k,
    {
        proof {
            assert(t[k - MAC_LINE_SKIP] == line@[k as int]);
        }
        k = k + 1;
    }
    proof {
        if k < n {
            assert(t[k - MAC_LINE_SKIP] == line@[k as int]);
        }
        lemma_star_limit_is(t, if n <= MAC_LINE_SKIP { 0 } else { k - MAC_LINE_SKIP });
    }

    // Copy the prefix text and normalize it.
    let mut text = String::new();
    let mut i: usize = MAC_LINE_SKIP;
    proof {
        assert(text@ =~= t.subrange(0, 0));
    }
    while i < k
        invariant
            st@ == line@,
            n == line@.len(),
            k <= n || (n < MAC_LINE_SKIP && k == MAC_LINE_SKIP),
            MAC_LINE_SKIP <= i <= k,
            t == after_mac_skip(line@),
            i < k ==> MAC_LINE_SKIP < n,
            text@ == t.subrange(0, i - MAC_LINE_SKIP),
        decreases k - i,
    {
        let c = st.get_char(i);
        proof {
            assert(t[i - MAC_LINE_SKIP] == line@[i as int]);
            assert(t.subrange(0, i + 1 - MAC_LINE_SKIP) =~= t.subrange(
                0,
                i - MAC_LINE_SKIP,
            ).push(t[i - MAC_LINE_SKIP]));
        }
        text.push(c);
        i = i + 1;
    }
    proof {
        assert(text@ =~= prefix_text(line@));
    }
    r.mac_str = normalize_mac_str(&text);
}

/// Extracts the vendor name from a vendor line into `r.vendor`, leaving
/// the prefix field alone.
pub fn parse_vendor_line(line: &String, r: &mut OuiRecord)
    ensures
        final(r).vendor@ == vendor_of_line(line@),
        final(r).mac_str == old(r).mac_str,
{
    let st: &str = line.as_str();
    let n: usize = st.unicode_len();
    let mut text = String::new();
    if n >= VENDOR_LINE_SKIP + 1 {
        let mut i: usize = VENDOR_LINE_SKIP;
        proof {
            assert(text@ =~= line@.subrange(VENDOR_LINE_SKIP as int, VENDOR_LINE_SKIP as int));
        }
        while i < n - 1
            invariant
                st@ == line@,
                n == line@.len(),
                VENDOR_LINE_SKIP + 1 <= n,
                VENDOR_LINE_SKIP <= i <= n - 1,
                text@ == line@.subrange(VENDOR_LINE_SKIP as int, i as int),
            decreases n - i,
        {
            let c = st.get_char(i);
            proof {
                assert(line@.subrange(VENDOR_LINE_SKIP as int, i + 1) =~= line@.subrange(
                    VENDOR_LINE_SKIP as int,
                    i as int,
                ).push(line@[i as int]));
            }
            text.push(c);
            i = i + 1;
        }
    }
    r.vendor = text;
}

/// The records a sequence of physical lines yields, in order.
///
/// Blank and comment lines before a record block are skipped. A
/// non-blank, non-comment line is a MAC line; the line immediately after
/// it, whatever it holds, is the record's vendor line. A MAC line at the
/// very end of the input still yields a record, with an empty vendor.
pub open spec fn parse_lines(lines: Seq<Seq<char>>) -> Seq<(Seq<char>, Seq<char>)>
    decreases lines.len(),
{
    if lines.len() == 0 {
        Seq::empty()
    } else if is_blank_line(lines[0]) || is_comment_line(lines[0]) {
        parse_lines(lines.drop_first())
    } else {
        let mac = mac_of_line(lines[0]);
        let vendor = if lines.len() >= 2 {
            vendor_of_line(lines[1])
        } else {
            Seq::<char>::empty()
        };
        if lines.len() >= 2 {
            seq![(mac, vendor)] + parse_lines(lines.skip(2))
        } else {
            seq![(mac, vendor)]
        }
    }
}

/// Every record that parsing yields is well formed: its prefix is all
/// lowercase hex digits.
pub proof fn lemma_parse_lines_wf(lines: Seq<Seq<char>>)
    ensures
        forall|i: int| 0 <= i < parse_lines(lines).len() ==> record_wf(#[trigger] parse_lines(lines)[i]),
    decreases lines.len(),
{
    if lines.len() == 0 {
    } else if is_blank_line(lines[0]) || is_comment_line(lines[0]) {
        lemma_parse_lines_wf(lines.drop_first());
        assert(parse_lines(lines) == parse_lines(lines.drop_first()));
    } else {
        lemma_normalize_hex_only(prefix_text(lines[0]));
        assert forall|j: int| 0 <= j < mac_of_line(lines[0]).len() implies is_lower_hex_digit(
            #[trigger] mac_of_line(lines[0])[j],
        ) by {
            assert(mac_of_line(lines[0])[j] == normalize_spec(prefix_text(lines[0]))[j]);
        }
        if lines.len() >= 2 {
            lemma_parse_lines_wf(lines.skip(2));
            assert forall|i: int| 0 <= i < parse_lines(lines).len() implies record_wf(
                parse_lines(lines)[i],
            ) by {
                if i == 0 {
                    assert(parse_lines(lines)[0] == (mac_of_line(lines[0]), vendor_of_line(
                        lines[1],
                    )));
                    assert(parse_lines(lines)[0].0 == mac_of_line(lines[0]));
                } else {
                    assert(parse_lines(lines)[i] == parse_lines(lines.skip(2))[i - 1]);
                }
            }
        } else {
            assert(parse_lines(lines)[0] == (mac_of_line(lines[0]), Seq::<char>::empty()));
            assert(parse_lines(lines)[0].0 == mac_of_line(lines[0]));
            assert(record_wf(parse_lines(lines)[0]));
        }
    }
}

/// Parses database lines into records, one MAC line and one vendor line
/// per record block, skipping blank and comment lines in between.
pub fn parse_db(lines: &Vec<String>) -> (db: OuiDb)
    ensures
        db@ == parse_lines(lines.deep_view()),
        forall|i: int| 0 <= i < db@.len() ==> record_wf(#[trigger] db@[i]),
{
    let ghost all: Seq<Seq<char>> = lines.deep_view();
    let mut records: Vec<OuiRecord> = Vec::new();
    let mut i: usize = 0;
    proof {
        assert(all.skip(0) =~= all);
    }
    while i < lines.len()
        invariant
            all == lines.deep_view(),
            i <= lines.len(),
            lines@.len() == all.len(),
            parse_lines(all) == records@.map_values(|r: OuiRecord| (r.mac_str@, r.vendor@))
                + parse_lines(all.skip(i as int)),
        decreases lines.len() - i,
    {
        let ghost pre = records@.map_values(|r: OuiRecord| (r.mac_str@, r.vendor@));
        let line: &String = &lines[i];
        proof {
            assert(all.skip(i as int)[0] == all[i as int]);
            assert(all[i as int] == line@);
        }
        let st: &str = line.as_str();
        let n: usize = st.unicode_len();
        let skip_line: bool = if n == 0 {
            false
        } else {
            let c0 = st.get_char(0);
            (n == 1 && c0 == '\n') || c0 == '#'
        };
        if skip_line {
            // Blank line or comment: no record starts here.
            proof {
                assert(all.skip(i as int).drop_first() =~= all.skip(i + 1));
            }
            i = i + 1;
        } else {
            let mut rec = OuiRecord { mac_str: String::new(), vendor: String::new() };
            parse_mac_line(line, &mut rec);
            if i + 1 < lines.len() {
                parse_vendor_line(&lines[i + 1], &mut rec);
                proof {
                    assert(all.skip(i as int)[1] == all[i + 1]);
                    assert(all[i + 1] == lines@[i + 1]@);
                    assert(all.skip(i as int).skip(2) =~= all.skip(i + 2));
                    assert(records@.push(rec).map_values(|r: OuiRecord| (r.mac_str@, r.vendor@))
                        =~= pre.push((rec.mac_str@, rec.vendor@)));
                    assert(pre + (seq![(rec.mac_str@, rec.vendor@)] + parse_lines(all.skip(i + 2)))
                        =~= pre.push((rec.mac_str@, rec.vendor@)) + parse_lines(all.skip(i + 2)));
                }
                records.push(rec);
                i = i + 2;
            } else {
                // The MAC line is the last line: the record keeps an empty vendor.
                proof {
                    assert(all.skip(i as int).len() == 1);
                    assert(all.skip(i + 1) =~= Seq::<Seq<char>>::empty());
                    assert(records@.push(rec).map_values(|r: OuiRecord| (r.mac_str@, r.vendor@))
                        =~= pre.push((rec.mac_str@, rec.vendor@)));
                    assert(pre + seq![(rec.mac_str@, rec.vendor@)] =~= pre.push(
                        (rec.mac_str@, rec.vendor@),
                    ));
                }
                records.push(rec);
                i = i + 1;
            }
        }
    }
    proof {
        assert(all.skip(lines@.len() as int) =~= Seq::<Seq<char>>::empty());
        assert(parse_lines(all) =~= records@.map_values(|r: OuiRecord| (r.mac_str@, r.vendor@)));
        lemma_parse_lines_wf(all);
    }
    OuiDb { records }
}

/// `p` is a prefix of `s`, character by character; the empty sequence is
/// a prefix of everything.
pub open spec fn is_prefix_of(p: Seq<char>, s: Seq<char>) -> bool {
    p.len() <= s.len() && p == s.subrange(0, p.len() as int)
}

/// The vendors of the records whose prefix the query starts with, in
/// database order, duplicates kept.
pub open spec fn matches_spec(records: Seq<(Seq<char>, Seq<char>)>, q: Seq<char>) -> Seq<Seq<char>>
    decreases records.len(),
{
    if records.len() == 0 {
        Seq::empty()
    } else {
        let rest = matches_spec(records.drop_first(), q);
        if is_prefix_of(records[0].0, q) {
            seq![records[0].1] + rest
        } else {
            rest
        }
    }
}

/// A stream of nothing but blank lines and comment lines yields no
/// records at all.
pub proof fn lemma_parse_only_skippable(lines: Seq<Seq<char>>)
    requires
        forall|i: int|
            0 <= i < lines.len() ==> is_blank_line(#[trigger] lines[i]) || is_comment_line(
                lines[i],
            ),
    ensures
        parse_lines(lines) == Seq::<(Seq<char>, Seq<char>)>::empty(),
    decreases lines.len(),
{
    if lines.len() > 0 {
        assert(is_blank_line(lines[0]) || is_comment_line(lines[0]));
        let t = lines.drop_first();
        assert forall|i: int| 0 <= i < t.len() implies is_blank_line(#[trigger] t[i])
            || is_comment_line(t[i]) by {
            assert(t[i] == lines[i + 1]);
        }
        lemma_parse_only_skippable(t);
    }
}

/// A MAC line with no `*` after the leading field contributes its whole
/// remainder as the prefix text.
pub proof fn lemma_mac_line_no_star(line: Seq<char>)
    requires
        forall|i: int| 0 <= i < after_mac_skip(line).len() ==> #[trigger] after_mac_skip(line)[i]
            != '*',
    ensures
        prefix_text(line) == after_mac_skip(line),
{
    let t = after_mac_skip(line);
    lemma_star_limit_is(t, t.len() as int);
    assert(t.subrange(0, t.len() as int) =~= t);
}

/// Matching keeps database order: when two records both match the query,
/// the first one's vendor comes out first.
pub proof fn lemma_lookup_order_preserving(
    p1: Seq<char>,
    v1: Seq<char>,
    p2: Seq<char>,
    v2: Seq<char>,
    q: Seq<char>,
)
    requires
        is_prefix_of(p1, q),
        is_prefix_of(p2, q),
    ensures
        matches_spec(seq![(p1, v1), (p2, v2)], q) == seq![v1, v2],
{
    let recs = seq![(p1, v1), (p2, v2)];
    assert(recs.drop_first() =~= seq![(p2, v2)]);
    assert(seq![(p2, v2)].drop_first() =~= Seq::<(Seq<char>, Seq<char>)>::empty());
    assert(matches_spec(Seq::<(Seq<char>, Seq<char>)>::empty(), q) =~= Seq::<Seq<char>>::empty());
    assert(matches_spec(seq![(p2, v2)], q) =~= seq![v2] + Seq::<Seq<char>>::empty());
    assert(seq![v2] + Seq::<Seq<char>>::empty() =~= seq![v2]);
    assert(matches_spec(recs, q) =~= seq![v1] + seq![v2]);
    assert(seq![v1] + seq![v2] =~= seq![v1, v2]);
}

/// A record with an empty prefix matches any nonempty query: its vendor
/// is always emitted.
pub proof fn lemma_empty_prefix_matches(v: Seq<char>, q: Seq<char>)
    requires
        q.len() > 0,
    ensures
        is_prefix_of(Seq::<char>::empty(), q),
        matches_spec(seq![(Seq::<char>::empty(), v)], q) == seq![v],
{
    assert(Seq::<char>::empty() =~= q.subrange(0, 0));
    let recs = seq![(Seq::<char>::empty(), v)];
    assert(recs.drop_first() =~= Seq::<(Seq<char>, Seq<char>)>::empty());
    assert(matches_spec(Seq::<(Seq<char>, Seq<char>)>::empty(), q) =~= Seq::<Seq<char>>::empty());
    assert(matches_spec(recs, q) =~= seq![v] + Seq::<Seq<char>>::empty());
    assert(seq![v] + Seq::<Seq<char>>::empty() =~= seq![v]);
}

/// Whether `s` starts with `p`, character by character.
pub fn str_starts_with(s: &String, p: &String) -> (b: bool)
    ensures
        b == is_prefix_of(p@, s@),
{
    let sl: &str = s.as_str();
    let pl: &str = p.as_str();
    let pn: usize = pl.unicode_len();
    let sn: usize = sl.unicode_len();
    if pn > sn {
        return false;
    }
    let mut i: usize = 0;
    while i < pn
        invariant
            sl@ == s@,
            pl@ == p@,
            pn == p@.len(),
            sn == s@.len(),
            pn <= sn,
            i <= pn,
            forall|j: int| 0 <= j < i ==> p@[j] == s@[j],
        decreases pn - i,
    {
        if pl.get_char(i) != sl.get_char(i) {
            proof {
                assert(s@.subrange(0, pn as int)[i as int] == s@[i as int]);
            }
            return false;
        }
        i = i + 1;
    }
    proof {
        assert(p@ =~= s@.subrange(0, pn as int));
    }
    true
}

/// Returns the vendors of every record whose prefix the query starts
/// with, in database order. A record with an empty prefix matches every
/// query.
pub fn lookup(db: &OuiDb, query: &String) -> (out: Vec<String>)
    ensures
        out.deep_view() == matches_spec(db@, query@),
{
    let mut out: Vec<String> = Vec::new();
    let mut i: usize = 0;
    proof {
        assert(db@.skip(0) =~= db@);
        assert(out.deep_view() =~= Seq::<Seq<char>>::empty());
    }
    while i < db.records.len()
        invariant
            i <= db.records.len(),
            db@.len() == db.records@.len(),
            matches_spec(db@, query@) == out.deep_view() + matches_spec(
                db@.skip(i as int),
                query@,
            ),
        decreases db.records.len() - i,
    {
        let ghost pre = out.deep_view();
        let r: &OuiRecord = &db.records[i];
        proof {
            assert(db@.skip(i as int)[0] == db@[i as int]);
            assert(db@[i as int] == (r.mac_str@, r.vendor@));
            assert(db@.skip(i as int).drop_first() =~= db@.skip(i + 1));
        }
        if str_starts_with(query, &r.mac_str) {
            let v = r.vendor.clone();
            proof {
                assert(pre + (seq![r.vendor@] + matches_spec(db@.skip(i + 1), query@)) =~= pre.push(
                    r.vendor@,
                ) + matches_spec(db@.skip(i + 1), query@));
            }
            out.push(v);
            proof {
                assert(out.deep_view() =~= pre.push(r.vendor@));
            }
        }
        i = i + 1;
    }
    proof {
        assert(db@.skip(db.records@.len() as int) =~= Seq::<(Seq<char>, Seq<char>)>::empty());
        assert(out.deep_view() =~= matches_spec(db@, query@));
    }
    out
}

} // verus!
