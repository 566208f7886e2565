use vstd::prelude::*;

verus! {

// ---------------------------------------------------------------------------
// Whitespace and trimming
// ---------------------------------------------------------------------------

/// The characters with the Unicode `White_Space` property.
pub open spec fn is_white_space(c: char) -> bool {
    let x = c as u32;
    (9 <= x <= 13) || x == 32 || x == 0x85 || x == 0xA0 || x == 0x1680 || (0x2000 <= x <= 0x200A)
        || x == 0x2028 || x == 0x2029 || x == 0x202F || x == 0x205F || x == 0x3000
}

/// `s` without its leading white space.
pub open spec fn trim_start(s: Seq<char>) -> Seq<char>
    decreases s.len(),
{
    if s.len() > 0 && is_white_space(s[0]) { trim_start(s.drop_first()) } else { s }
}

/// `s` without its trailing white space.
pub open spec fn trim_end(s: Seq<char>) -> Seq<char>
    decreases s.len(),
{
    if s.len() > 0 && is_white_space(s.last()) { trim_end(s.drop_last()) } else { s }
}

/// `s` without leading and trailing white space.
pub open spec fn trimmed(s: Seq<char>) -> Seq<char> {
    trim_end(trim_start(s))
}

/// `str::trim` returns the slice without leading and trailing characters that have the
/// Unicode `White_Space` property (its documentation defines whitespace so, and
/// `char::is_whitespace` lists the same set).
pub assume_specification[ str::trim ](text: &str) -> (r: &str)
    ensures
        r@ == trimmed(text@),
;

/// `String::push` appends one character.
pub assume_specification[ String::push ](string: &mut String, ch: char)
    ensures
        final(string)@ == old(string)@.push(ch),
;

/// Turns a string slice into its characters.
pub fn chars_of(s: &str) -> (v: Vec<char>)
    ensures
        v@ == s@,
{
    let mut v: Vec<char> = Vec::new();
    for c in it: s.chars()
        invariant
            v@ == it.seq().take(it.index()),
    {
        v.push(c);
    }
    proof {
        assert(v@ =~= s@);
    }
    v
}

// ---------------------------------------------------------------------------
// Scalar fields
// ---------------------------------------------------------------------------

pub open spec fn is_digit(c: char) -> bool {
    48 <= (c as u32) <= 57
}

pub open spec fn digit_value(c: char) -> nat {
    ((c as u32) - 48) as nat
}

/// The value of a string of decimal digits.
pub open spec fn digits_value(d: Seq<char>) -> nat
    decreases d.len(),
{
    if d.len() == 0 { 0 } else { digits_value(d.drop_last()) * 10 + digit_value(d.last()) }
}

/// The digits of an unsigned decimal: an optional leading `+` is dropped.
pub open spec fn unsigned_digits(t: Seq<char>) -> Seq<char> {
    if t.len() > 0 && t[0] == '+' { t.drop_first() } else { t }
}

/// `t` is an unsigned decimal: an optional `+` followed by one or more ASCII digits.
pub open spec fn is_unsigned_decimal(t: Seq<char>) -> bool {
    &&& unsigned_digits(t).len() > 0
    &&& forall|i: int| 0 <= i < unsigned_digits(t).len() ==> is_digit(#[trigger] unsigned_digits(t)[i])
}

/// A field read as an unsigned integer of at most `max`: the trimmed text when it is an
/// unsigned decimal whose value fits, and 0 otherwise.
pub open spec fn field_unsigned(s: Seq<char>, max: nat) -> nat {
    let t = trimmed(s);
    if is_unsigned_decimal(t) && digits_value(unsigned_digits(t)) <= max { digits_value(unsigned_digits(t)) } else { 0 }
}

/// A field read as a flag: the trimmed text is `1`, `true`, `True` or `TRUE`.
pub open spec fn field_bool(s: Seq<char>) -> bool {
    let t = trimmed(s);
    t == seq!['1'] || t == seq!['t', 'r', 'u', 'e'] || t == seq!['T', 'r', 'u', 'e'] || t == seq!['T', 'R', 'U', 'E']
}

proof fn lemma_digits_value_prefix(d: Seq<char>, j: int)
    requires
        0 <= j <= d.len(),
    ensures
        digits_value(d.take(j)) <= digits_value(d),
    decreases d.len() - j,
{
    if j < d.len() {
        lemma_digits_value_prefix(d, j + 1);
        assert(d.take(j + 1).drop_last() =~= d.take(j));
    } else {
        assert(d.take(j) =~= d);
    }
}

/// The value of the unsigned decimal `t`, or `None` when `t` is not one or its value
/// exceeds `u64::MAX`.
fn decimal_value(t: &Vec<char>) -> (r: Option<u64>)
    ensures
        r == (if is_unsigned_decimal(t@) && digits_value(unsigned_digits(t@)) <= u64::MAX {
            Some(digits_value(unsigned_digits(t@)) as u64)
        } else {
            None
        }),
{
    let mut i: usize = 0;
    if t.len() > 0 && t[0] == '+' {
        i = 1;
    }
    let ghost i0 = i as int;
    let ghost d = unsigned_digits(t@);
    proof {
        assert(d =~= t@.subrange(i as int, t@.len() as int));
    }
    if i >= t.len() {
        return None;
    }
    assert(d == t@.subrange(i0, t@.len() as int));
    let mut val: u64 = 0;
    while i < t.len()
        invariant
            d == t@.subrange(i0, t@.len() as int),
            d == unsigned_digits(t@),
            0 <= i0 <= i <= t.len(),
            forall|j: int| 0 <= j < i - i0 ==> is_digit(#[trigger] d[j]),
            val == digits_value(d.take(i - i0)),
        decreases t.len() - i,
    {
        let c = t[i];
        proof {
            assert(d.len() == t@.len() - i0);
            assert(d[i - i0] == t@[i as int]);
        }
        let cu = c as u32;
        if cu < 48 || cu > 57 {
            proof {
                assert(!is_digit(d[i - i0]));
                assert(!is_digit(unsigned_digits(t@)[i - i0]));
                assert(!is_unsigned_decimal(t@));
            }
            return None;
        }
        let dv = (cu - 48) as u64;
        proof {
            assert(d.take(i - i0 + 1).drop_last() =~= d.take(i - i0));
        }
        match val.checked_mul(10) {
            Some(v10) => match v10.checked_add(dv) {
                Some(v) => {
                    val = v;
                },
                None => {
                    proof {
                        assert(d.take(i - i0 + 1).last() == c);
                        assert(digits_value(d.take(i - i0 + 1)) == val * 10 + dv);
                        lemma_digits_value_prefix(d, i - i0 + 1);
                        assert(digits_value(unsigned_digits(t@)) > u64::MAX);
                    }
                    return None;
                },
            },
            None => {
                proof {
                    assert(d[i - i0] == c);
                    lemma_digits_value_prefix(d, i - i0 + 1);
                }
                return None;
            },
        }
        i += 1;
    }
    proof {
        assert(d.take(d.len() as int) =~= d);
    }
    Some(val)
}

/// Reads a field as a `u64`: the trimmed text when it is an unsigned decimal that fits,
/// 0 otherwise.
pub fn parse_u64(s: &str) -> (r: u64)
    ensures
        r == field_unsigned(s@, u64::MAX as nat),
{
    let t = chars_of(s.trim());
    match decimal_value(&t) {
        Some(v) => v,
        None => 0,
    }
}

/// Reads a field as a `u32`: the trimmed text when it is an unsigned decimal that fits,
/// 0 otherwise.
pub fn parse_u32(s: &str) -> (r: u32)
    ensures
        r == field_unsigned(s@, u32::MAX as nat),
{
    let t = chars_of(s.trim());
    match decimal_value(&t) {
        Some(v) => {
            if v <= u32::MAX as u64 {
                v as u32
            } else {
                0
            }
        },
        None => 0,
    }
}

/// Reads a field as a flag: true exactly for `1`, `true`, `True` and `TRUE`
/// (surrounding white space aside).
pub fn parse_bool(s: &str) -> (r: bool)
    ensures
        r == field_bool(s@),
{
    let t = chars_of(s.trim());
    let r = if t.len() == 1 {
        t[0] == '1'
    } else if t.len() == 4 {
        (t[0] == 't' && t[1] == 'r' && t[2] == 'u' && t[3] == 'e')
        || (t[0] == 'T' && t[1] == 'r' && t[2] == 'u' && t[3] == 'e')
        || (t[0] == 'T' && t[1] == 'R' && t[2] == 'U' && t[3] == 'E')
    } else {
        false
    };
    proof {
        let tt = trimmed(s@);
        assert(t@ == tt);
        if t.len() == 1 {
            assert(r == (tt =~= seq!['1']));
        } else if t.len() == 4 {
            assert((t[0] == 't' && t[1] == 'r' && t[2] == 'u' && t[3] == 'e') == (tt =~= seq!['t', 'r', 'u', 'e']));
            assert((t[0] == 'T' && t[1] == 'r' && t[2] == 'u' && t[3] == 'e') == (tt =~= seq!['T', 'r', 'u', 'e']));
            assert((t[0] == 'T' && t[1] == 'R' && t[2] == 'U' && t[3] == 'E') == (tt =~= seq!['T', 'R', 'U', 'E']));
        } else {
            assert(tt != seq!['1']);
            assert(tt != seq!['t', 'r', 'u', 'e']);
            assert(tt != seq!['T', 'r', 'u', 'e']);
            assert(tt != seq!['T', 'R', 'U', 'E']);
        }
    }
    r
}

/// A text field: the trimmed text.
pub fn s(v: &str) -> (r: String)
    ensures
        r@ == trimmed(v@),
{
    v.trim().to_owned()
}

// ---------------------------------------------------------------------------
// Splitting a line into fields
// ---------------------------------------------------------------------------

/// The fields of `line` from position `i` on, when the scan is inside quotes or not,
/// has gathered `cur` for the current field and has completed `fields`: a quote
/// toggles quoting (a doubled quote inside quotes stands for one quote character), a
/// comma outside quotes ends the current field, and every other character belongs to
/// the current field.
pub open spec fn csv_scan(line: Seq<char>, i: int, in_quotes: bool, cur: Seq<char>, fields: Seq<Seq<char>>) -> Seq<Seq<char>>
    decreases line.len() - i,
{
    if i >= line.len() || i < 0 {
        fields.push(cur)
    } else if line[i] == '"' {
        if in_quotes && i + 1 < line.len() && line[i + 1] == '"' {
            csv_scan(line, i + 2, in_quotes, cur.push('"'), fields)
        } else {
            csv_scan(line, i + 1, !in_quotes, cur, fields)
        }
    } else if line[i] == ',' && !in_quotes {
        csv_scan(line, i + 1, false, Seq::empty(), fields.push(cur))
    } else {
        csv_scan(line, i + 1, in_quotes, cur.push(line[i]), fields)
    }
}

/// The fields of a CSV line.
pub open spec fn csv_split(line: Seq<char>) -> Seq<Seq<char>> {
    csv_scan(line, 0, false, Seq::empty(), Seq::empty())
}

pub open spec fn string_views(v: Seq<String>) -> Seq<Seq<char>> {
    v.map_values(|x: String| x@)
}

/// Splits a CSV line into its fields, honouring double-quoted fields.
pub fn split_csv(line: &str) -> (fields: Vec<String>)
    ensures
        string_views(fields@) == csv_split(line@),
{
    let chars = chars_of(line);
    let mut fields: Vec<String> = Vec::new();
    let mut cur = String::new();
    let mut in_quotes = false;
    let mut i: usize = 0;
    proof {
        assert(string_views(fields@) =~= Seq::<Seq<char>>::empty());
    }
    while i < chars.len()
        invariant
            chars@ == line@,
            i <= chars.len(),
            csv_split(line@) == csv_scan(line@, i as int, in_quotes, cur@, string_views(fields@)),
        decreases chars.len() - i,
    {
        let c = chars[i];
        if c == '"' {
            if in_quotes && i + 1 < chars.len() && chars[i + 1] == '"' {
                cur.push('"');
                i += 2;
            } else {
                in_quotes = !in_quotes;
                i += 1;
            }
        } else if c == ',' && !in_quotes {
            let ghost old_fields = string_views(fields@);
            let done = cur;
            fields.push(done);
            cur = String::new();
            proof {
                assert(string_views(fields@) =~= old_fields.push(done@));
            }
            i += 1;
        } else {
            cur.push(c);
            i += 1;
        }
    }
    let ghost old_fields = string_views(fields@);
    let last = cur;
    fields.push(last);
    proof {
        assert(string_views(fields@) =~= old_fields.push(last@));
    }
    fields
}

/// The fields joined with commas.
pub open spec fn join_fields(fs: Seq<Seq<char>>) -> Seq<char>
    decreases fs.len(),
{
    if fs.len() == 0 {
        Seq::empty()
    } else if fs.len() == 1 {
        fs[0]
    } else {
        join_fields(fs.drop_last()) + seq![','] + fs.last()
    }
}

proof fn lemma_join_push(fs: Seq<Seq<char>>, x: Seq<char>)
    ensures
        join_fields(fs.push(x)) == (if fs.len() == 0 { x } else { join_fields(fs) + seq![','] + x }),
{
    assert(fs.push(x).drop_last() =~= fs);
}

proof fn lemma_scan_without_quotes(line: Seq<char>, i: int, cur: Seq<char>, fs: Seq<Seq<char>>)
    requires
        0 <= i <= line.len(),
        !line.contains('"'),
        !cur.contains(','),
        forall|j: int| 0 <= j < fs.len() ==> !(#[trigger] fs[j]).contains(','),
    ensures
        join_fields(csv_scan(line, i, false, cur, fs)) == join_fields(fs.push(cur + line.subrange(i, line.len() as int))),
        forall|j: int| 0 <= j < csv_scan(line, i, false, cur, fs).len()
            ==> !(#[trigger] csv_scan(line, i, false, cur, fs)[j]).contains(','),
    decreases line.len() - i,
{
    let rest = line.subrange(i, line.len() as int);
    if i >= line.len() {
        assert(cur + rest =~= cur);
        let r = fs.push(cur);
        assert forall|j: int| 0 <= j < r.len() implies !(#[trigger] r[j]).contains(',') by {
            if j < fs.len() {
                assert(r[j] == fs[j]);
            }
        }
    } else {
        assert(line[i] != '"') by {
            if line[i] == '"' {
                assert(line.contains('"'));
            }
        }
        if line[i] == ',' {
            let fs2 = fs.push(cur);
            assert forall|j: int| 0 <= j < fs2.len() implies !(#[trigger] fs2[j]).contains(',') by {
                if j < fs.len() {
                    assert(fs2[j] == fs[j]);
                }
            }
            assert(!Seq::<char>::empty().contains(','));
            lemma_scan_without_quotes(line, i + 1, Seq::empty(), fs2);
            let rest2 = line.subrange(i + 1, line.len() as int);
            lemma_join_push(fs2, Seq::<char>::empty() + rest2);
            lemma_join_push(fs, cur);
            lemma_join_push(fs, cur + rest);
            assert(rest =~= seq![','] + rest2);
            assert(Seq::<char>::empty() + rest2 =~= rest2);
            if fs.len() == 0 {
                assert(cur + rest =~= cur + seq![','] + rest2);
            } else {
                assert(join_fields(fs) + seq![','] + (cur + rest) =~= join_fields(fs) + seq![','] + cur + seq![','] + rest2);
            }
        } else {
            let cur2 = cur.push(line[i]);
            assert(!cur2.contains(',')) by {
                if cur2.contains(',') {
                    let j = choose|j: int| 0 <= j < cur2.len() && cur2[j] == ',';
                    if j < cur.len() {
                        assert(cur[j] == ',');
                    }
                }
            }
            lemma_scan_without_quotes(line, i + 1, cur2, fs);
            assert(cur2 + line.subrange(i + 1, line.len() as int) =~= cur + rest);
        }
    }
}

/// A line without double quotes splits into exactly its comma-separated pieces:
/// joining the fields with commas gives the line back, and no field holds a comma.
pub proof fn law_split_without_quotes(line: Seq<char>)
    requires
        !line.contains('"'),
    ensures
        join_fields(csv_split(line)) == line,
        forall|j: int| 0 <= j < csv_split(line).len() ==> !(#[trigger] csv_split(line)[j]).contains(','),
        csv_split(line).len() >= 1,
{
    assert(!Seq::<char>::empty().contains(','));
    lemma_scan_without_quotes(line, 0, Seq::empty(), Seq::empty());
    lemma_join_push(Seq::<Seq<char>>::empty(), Seq::<char>::empty() + line.subrange(0, line.len() as int));
    assert(Seq::<char>::empty() + line.subrange(0, line.len() as int) =~= line);
    lemma_scan_len(line, 0, false, Seq::empty(), Seq::empty());
}

/// A field's text with every double quote doubled.
pub open spec fn escape_quotes(f: Seq<char>) -> Seq<char>
    decreases f.len(),
{
    if f.len() == 0 {
        Seq::empty()
    } else {
        (if f[0] == '"' { seq!['"', '"'] } else { seq![f[0]] }) + escape_quotes(f.drop_first())
    }
}

/// A field written in double quotes, with its own quotes doubled.
pub open spec fn quote_field(f: Seq<char>) -> Seq<char> {
    seq!['"'] + escape_quotes(f) + seq!['"']
}

/// The fields, each written in double quotes, joined with commas.
pub open spec fn quoted_line(fs: Seq<Seq<char>>) -> Seq<char>
    decreases fs.len(),
{
    if fs.len() == 0 {
        Seq::empty()
    } else if fs.len() == 1 {
        quote_field(fs[0])
    } else {
        quote_field(fs[0]) + seq![','] + quoted_line(fs.drop_first())
    }
}

proof fn lemma_scan_quoted_field(line: Seq<char>, pre: Seq<char>, f: Seq<char>, post: Seq<char>,
    cur: Seq<char>, fs: Seq<Seq<char>>)
    requires
        line == pre + escape_quotes(f) + seq!['"'] + post,
        post.len() == 0 || post[0] != '"',
    ensures
        csv_scan(line, pre.len() as int, true, cur, fs)
            == csv_scan(line, (pre.len() + escape_quotes(f).len() + 1) as int, false, cur + f, fs),
    decreases f.len(),
{
    let i = pre.len() as int;
    if f.len() == 0 {
        assert(escape_quotes(f) =~= Seq::<char>::empty());
        assert(line[i] == '"');
        assert(i + 1 < line.len() ==> line[i + 1] == post[0]);
        assert(cur + f =~= cur);
    } else {
        let head = if f[0] == '"' { seq!['"', '"'] } else { seq![f[0]] };
        let rest = f.drop_first();
        assert(escape_quotes(f) == head + escape_quotes(rest));
        let pre2 = pre + head;
        assert(line =~= pre2 + escape_quotes(rest) + seq!['"'] + post);
        lemma_scan_quoted_field(line, pre2, rest, post, cur.push(f[0]), fs);
        assert(cur.push(f[0]) + rest =~= cur + f);
        if f[0] == '"' {
            assert(line[i] == '"');
            assert(line[i + 1] == '"');
        } else {
            assert(line[i] == f[0]);
        }
    }
}

proof fn lemma_scan_quoted_line(line: Seq<char>, pre: Seq<char>, fs: Seq<Seq<char>>, acc: Seq<Seq<char>>)
    requires
        fs.len() >= 1,
        line == pre + quoted_line(fs),
    ensures
        csv_scan(line, pre.len() as int, false, Seq::empty(), acc) == acc + fs,
    decreases fs.len(),
{
    let i = pre.len() as int;
    let f0 = fs[0];
    let e = escape_quotes(f0);
    assert(line[i] == '"') by {
        assert(quoted_line(fs)[0] == '"');
    }
    let pre1 = pre + seq!['"'];
    if fs.len() == 1 {
        assert(line =~= pre1 + e + seq!['"'] + Seq::<char>::empty());
        lemma_scan_quoted_field(line, pre1, f0, Seq::empty(), Seq::empty(), acc);
        assert(Seq::<char>::empty() + f0 =~= f0);
        assert(acc.push(f0) =~= acc + fs);
    } else {
        let rest = fs.drop_first();
        let post = seq![','] + quoted_line(rest);
        assert(line =~= pre1 + e + seq!['"'] + post);
        lemma_scan_quoted_field(line, pre1, f0, post, Seq::empty(), acc);
        assert(Seq::<char>::empty() + f0 =~= f0);
        let p = (pre1.len() + e.len() + 1) as int;
        assert(line[p] == ',');
        let pre2 = pre + quote_field(f0) + seq![','];
        assert(line =~= pre2 + quoted_line(rest));
        assert(pre2.len() == p + 1);
        lemma_scan_quoted_line(line, pre2, rest, acc.push(f0));
        assert(acc.push(f0) + rest =~= acc + fs);
    }
}

/// Quoting every field, doubling its quotes, and joining the fields with commas gives a
/// line that splits back into exactly those fields, whatever they hold.
pub proof fn law_split_quoted_round_trip(fs: Seq<Seq<char>>)
    requires
        fs.len() >= 1,
    ensures
        csv_split(quoted_line(fs)) == fs,
{
    let line = quoted_line(fs);
    assert(line =~= Seq::<char>::empty() + quoted_line(fs));
    lemma_scan_quoted_line(line, Seq::empty(), fs, Seq::empty());
    assert(Seq::<Seq<char>>::empty() + fs =~= fs);
}

proof fn lemma_scan_len(line: Seq<char>, i: int, q: bool, cur: Seq<char>, fs: Seq<Seq<char>>)
    ensures
        csv_scan(line, i, q, cur, fs).len() > fs.len(),
    decreases line.len() - i,
{
    if i >= line.len() || i < 0 {
    } else if line[i] == '"' {
        if q && i + 1 < line.len() && line[i + 1] == '"' {
            lemma_scan_len(line, i + 2, q, cur.push('"'), fs);
        } else {
            lemma_scan_len(line, i + 1, !q, cur, fs);
        }
    } else if line[i] == ',' && !q {
        lemma_scan_len(line, i + 1, false, Seq::empty(), fs.push(cur));
    } else {
        lemma_scan_len(line, i + 1, q, cur.push(line[i]), fs);
    }
}

// ---------------------------------------------------------------------------
// Records
// ---------------------------------------------------------------------------

/// The records of the first `m` lines of a CSV text: the first line is the header and
/// is skipped; every other line is trimmed, and a line that is then empty is skipped.
pub open spec fn records_upto(lines: Seq<Seq<char>>, m: int) -> Seq<Seq<Seq<char>>>
    decreases m,
{
    if m <= 1 {
        Seq::empty()
    } else {
        let t = trimmed(lines[m - 1]);
        records_upto(lines, m - 1) + (if t.len() > 0 { seq![csv_split(t)] } else { Seq::empty() })
    }
}

/// The records of a CSV text given as its lines.
pub open spec fn csv_records(lines: Seq<Seq<char>>) -> Seq<Seq<Seq<char>>> {
    records_upto(lines, lines.len() as int)
}

/// The header is skipped whatever it holds, a line that is blank once trimmed adds no
/// record, and any other line adds one record: its trimmed text split into fields.
pub proof fn law_csv_records_line_by_line(lines: Seq<Seq<char>>, header: Seq<char>, l: Seq<char>)
    requires
        lines.len() >= 1,
    ensures
        csv_records(lines.update(0, header)) == csv_records(lines),
        trimmed(l).len() == 0 ==> csv_records(lines.push(l)) == csv_records(lines),
        trimmed(l).len() > 0 ==> csv_records(lines.push(l)) == csv_records(lines).push(csv_split(trimmed(l))),
{
    lemma_records_ignore_header(lines, header, lines.len() as int);
    lemma_records_prefix(lines.push(l), lines, lines.len() as int);
    let p = lines.push(l);
    assert(p[p.len() - 1] == l);
    if trimmed(l).len() > 0 {
        assert(csv_records(lines) + seq![csv_split(trimmed(l))] =~= csv_records(lines).push(csv_split(trimmed(l))));
    } else {
        assert(csv_records(lines) + Seq::<Seq<Seq<char>>>::empty() =~= csv_records(lines));
    }
}

proof fn lemma_records_ignore_header(lines: Seq<Seq<char>>, header: Seq<char>, m: int)
    requires
        1 <= lines.len(),
        m <= lines.len(),
    ensures
        records_upto(lines.update(0, header), m) == records_upto(lines, m),
    decreases m,
{
    if m > 1 {
        lemma_records_ignore_header(lines, header, m - 1);
        assert(lines.update(0, header)[m - 1] == lines[m - 1]);
    }
}

proof fn lemma_records_prefix(a: Seq<Seq<char>>, b: Seq<Seq<char>>, m: int)
    requires
        m <= b.len() <= a.len(),
        forall|i: int| 0 <= i < b.len() ==> a[i] == b[i],
    ensures
        records_upto(a, m) == records_upto(b, m),
    decreases m,
{
    if m > 1 {
        lemma_records_prefix(a, b, m - 1);
    }
}

pub open spec fn record_views(v: Seq<Vec<String>>) -> Seq<Seq<Seq<char>>> {
    v.map_values(|r: Vec<String>| string_views(r@))
}

/// Splits every data line of a CSV text (given as its lines, the header first) into
/// fields, skipping blank lines.
pub fn read_csv_lines(lines: &Vec<String>) -> (records: Vec<Vec<String>>)
    ensures
        record_views(records@) == csv_records(string_views(lines@)),
{
    let mut out: Vec<Vec<String>> = Vec::new();
    let mut i: usize = 1;
    let ghost lv = string_views(lines@);
    proof {
        assert(record_views(out@) =~= records_upto(lv, 1));
    }
    if lines.len() == 0 {
        proof {
            assert(record_views(out@) =~= records_upto(lv, 0));
        }
        return out;
    }
    while i < lines.len()
        invariant
            lv == string_views(lines@),
            1 <= i <= lines.len(),
            record_views(out@) == records_upto(lv, i as int),
        decreases lines.len() - i,
    {
        let t = lines[i].as_str().trim();
        let ghost before = record_views(out@);
        proof {
            assert(lv[i as int] == lines@[i as int]@);
        }
        if !t.is_empty() {
            let fields = split_csv(t);
            out.push(fields);
            proof {
                assert(record_views(out@) =~= before.push(string_views(fields@)));
                assert(records_upto(lv, i + 1) =~= before + seq![csv_split(trimmed(lv[i as int]))]);
            }
        } else {
            proof {
                assert(records_upto(lv, i + 1) =~= before + Seq::<Seq<Seq<char>>>::empty());
            }
        }
        i += 1;
    }
    out
}

} // verus!
