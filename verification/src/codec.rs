use vstd::prelude::*;
use vstd::string::{StrSliceExecFns, StringExecFns};
use crate::database::DbView;
use crate::time::Timestamp;
use crate::todo::{TaskView, Todo, TodoStatus};

verus! {

/// Relies on std's `String::push`: appends exactly the one character.
pub assume_specification[ String::push ](s: &mut String, ch: char)
    ensures
        final(s)@ == old(s)@.push(ch),
;

/// The character for one decimal digit.
pub open spec fn digit_char(d: int) -> char {
    if d == 0 {
        '0'
    } else if d == 1 {
        '1'
    } else if d == 2 {
        '2'
    } else if d == 3 {
        '3'
    } else if d == 4 {
        '4'
    } else if d == 5 {
        '5'
    } else if d == 6 {
        '6'
    } else if d == 7 {
        '7'
    } else if d == 8 {
        '8'
    } else {
        '9'
    }
}

/// The canonical decimal form of a non-negative integer: no sign, no
/// leading zero except for the number 0 itself.
pub open spec fn dec_str(n: int) -> Seq<char>
    decreases n,
{
    if n < 10 {
        seq![digit_char(n)]
    } else {
        dec_str(n / 10).push(digit_char(n % 10))
    }
}

/// The canonical decimal form of any integer: a minus sign exactly for
/// the negative ones.
pub open spec fn int_str(n: int) -> Seq<char> {
    if n < 0 {
        seq!['-'] + dec_str(-n)
    } else {
        dec_str(n)
    }
}

/// How one title character appears inside quotes: a backslash shields the
/// quote and the backslash, every other character stands as itself.
pub open spec fn escape_char(c: char) -> Seq<char> {
    if c == '"' || c == '\\' {
        seq!['\\', c]
    } else {
        seq![c]
    }
}

/// The quoted image of a whole string.
pub open spec fn escape_str(s: Seq<char>) -> Seq<char>
    decreases s.len(),
{
    if s.len() == 0 {
        Seq::empty()
    } else {
        escape_char(s[0]) + escape_str(s.drop_first())
    }
}

/// The text of one instant: the three integers in brackets.
pub open spec fn ts_json(t: Timestamp) -> Seq<char> {
    seq!['['] + int_str(t.secs as int) + ", "@ + dec_str(t.nanos as int) + ", "@ + int_str(
        t.offset_secs as int,
    ) + seq![']']
}

/// The text of the completion field: `null` while the task is active.
pub open spec fn status_json(s: TodoStatus) -> Seq<char> {
    match s {
        TodoStatus::Active => "null"@,
        TodoStatus::Completed { completed_at } => ts_json(completed_at),
    }
}

/// The text of one task record.
pub open spec fn task_json(t: TaskView) -> Seq<char> {
    "{\"id\": "@ + dec_str(t.id as int) + ", \"title\": \""@ + escape_str(t.title)
        + seq!['"'] + ", \"created_at\": "@ + ts_json(t.created_at) + ", \"completed_at\": "@
        + status_json(t.status) + seq!['}']
}

/// The text of the task list: each record on its own indented line.
pub open spec fn tasks_json(ts: Seq<TaskView>) -> Seq<char>
    decreases ts.len(),
{
    if ts.len() == 0 {
        Seq::empty()
    } else if ts.len() == 1 {
        "\n    "@ + task_json(ts[0])
    } else {
        tasks_json(ts.drop_last()) + ",\n    "@ + task_json(ts.last())
    }
}

/// A database view whose every title is a valid one.
pub open spec fn db_wf(v: DbView) -> bool {
    forall|i: int| 0 <= i < v.tasks.len() ==> !crate::value_objects::is_blank(
        (#[trigger] v.tasks[i]).title,
    )
}

/// The canonical text of a whole database: the exact file content a save
/// writes, and the only form a load accepts.
pub open spec fn db_json(db: DbView) -> Seq<char> {
    "{\n  \"version\": \""@ + escape_str(db.version) + seq!['"'] + ",\n  \"next_id\": "@
        + dec_str(db.next_id as int) + ",\n  \"todos\": ["@ + tasks_json(db.tasks) + (if db.tasks.len() == 0 {
        "]\n}"@
    } else {
        "\n  ]\n}"@
    })
}

/// One digit as its character.
fn digit_to_char(d: u64) -> (c: char)
    requires
        d < 10,
    ensures
        c == digit_char(d as int),
{
    if d == 0 {
        '0'
    } else if d == 1 {
        '1'
    } else if d == 2 {
        '2'
    } else if d == 3 {
        '3'
    } else if d == 4 {
        '4'
    } else if d == 5 {
        '5'
    } else if d == 6 {
        '6'
    } else if d == 7 {
        '7'
    } else if d == 8 {
        '8'
    } else {
        '9'
    }
}

/// Appends the canonical decimal form of `n`.
fn push_dec_u64(out: &mut String, n: u64)
    ensures
        final(out)@ == old(out)@ + dec_str(n as int),
    decreases n,
{
    if n < 10 {
        out.push(digit_to_char(n));
        proof {
            assert(out@ =~= old(out)@ + dec_str(n as int));
        }
    } else {
        push_dec_u64(out, n / 10);
        out.push(digit_to_char(n % 10));
        proof {
            assert(out@ =~= old(out)@ + dec_str(n as int));
        }
    }
}

/// Appends the canonical decimal form of `n`, sign included.
fn push_int_i64(out: &mut String, n: i64)
    ensures
        final(out)@ == old(out)@ + int_str(n as int),
{
    if n >= 0 {
        push_dec_u64(out, n as u64);
    } else {
        out.push('-');
        let mag: u64 = if n == i64::MIN {
            9223372036854775808u64
        } else {
            (-n) as u64
        };
        proof {
            assert(mag as int == -(n as int));
        }
        push_dec_u64(out, mag);
        proof {
            assert(out@ =~= old(out)@ + int_str(n as int));
        }
    }
}

/// Appending a character extends the quoted image by that character's
/// escape.
proof fn lemma_escape_push(s: Seq<char>, c: char)
    ensures
        escape_str(s.push(c)) == escape_str(s) + escape_char(c),
    decreases s.len(),
{
    reveal_with_fuel(escape_str, 2);
    if s.len() == 0 {
        assert(s.push(c).drop_first() =~= Seq::<char>::empty());
        assert(escape_str(s.push(c)) =~= escape_str(s) + escape_char(c));
    } else {
        lemma_escape_push(s.drop_first(), c);
        assert(s.push(c).drop_first() =~= s.drop_first().push(c));
        assert(escape_str(s.push(c)) =~= escape_str(s) + escape_char(c));
    }
}

/// Appends the quoted image of `s`.
#[verifier::loop_isolation(false)]
fn push_escaped(out: &mut String, s: &str)
    ensures
        final(out)@ == old(out)@ + escape_str(s@),
{
    let n = s.unicode_len();
    let mut i: usize = 0;
    while i < n
        invariant
            n == s@.len(),
            i <= n,
            out@ == old(out)@ + escape_str(s@.take(i as int)),
        decreases n - i,
    {
        let c = s.get_char(i);
        if c == '"' || c == '\\' {
            out.push('\\');
            out.push(c);
        } else {
            out.push(c);
        }
        proof {
            lemma_escape_push(s@.take(i as int), c);
            assert(s@.take(i + 1) =~= s@.take(i as int).push(c));
            assert(out@ =~= old(out)@ + escape_str(s@.take(i + 1)));
        }
        i += 1;
    }
    proof {
        assert(s@.take(n as int) =~= s@);
    }
}

/// Appends the text of one instant.
fn push_ts(out: &mut String, t: &Timestamp)
    ensures
        final(out)@ == old(out)@ + ts_json(*t),
{
    out.push('[');
    proof {
        assert(out@ =~= old(out)@ + seq!['[']);
    }
    push_int_i64(out, t.secs);
    out.append(", ");
    push_dec_u64(out, t.nanos as u64);
    out.append(", ");
    push_int_i64(out, t.offset_secs as i64);
    out.push(']');
    proof {
        assert(out@ =~= old(out)@ + ts_json(*t));
    }
}

/// Appends the text of one task record.
fn push_task(out: &mut String, t: &Todo)
    ensures
        final(out)@ == old(out)@ + task_json(t@),
{
    out.append("{\"id\": ");
    push_dec_u64(out, t.id.value() as u64);
    out.append(", \"title\": \"");
    push_escaped(out, t.title.as_str());
    out.push('"');
    out.append(", \"created_at\": ");
    push_ts(out, &t.created_at);
    out.append(", \"completed_at\": ");
    match &t.status {
        TodoStatus::Active => out.append("null"),
        TodoStatus::Completed { completed_at } => push_ts(out, completed_at),
    }
    out.push('}');
    proof {
        assert(out@ =~= old(out)@ + task_json(t@));
    }
}

/// The exact file text of a database: what a save writes.
#[verifier::loop_isolation(false)]
pub fn encode_database(db: &crate::database::TodoDatabase) -> (r: String)
    ensures
        r@ == db_json(db@),
{
    let ghost tasks = db@.tasks;
    let mut out = String::new();
    out.append("{\n  \"version\": \"");
    push_escaped(&mut out, db.version.as_str());
    out.push('"');
    out.append(",\n  \"next_id\": ");
    push_dec_u64(&mut out, db.next_id as u64);
    out.append(",\n  \"todos\": [");
    let ghost head = "{\n  \"version\": \""@ + escape_str(db@.version) + seq!['"']
        + ",\n  \"next_id\": "@ + dec_str(db@.next_id as int) + ",\n  \"todos\": ["@;
    proof {
        assert(out@ =~= head);
    }
    let n = db.todos.len();
    let mut i: usize = 0;
    while i < n
        invariant
            n == db.todos.len(),
            i <= n,
            out@ == head + tasks_json(tasks.take(i as int)),
        decreases n - i,
    {
        if i == 0 {
            out.append("\n    ");
        } else {
            out.append(",\n    ");
        }
        push_task(&mut out, &db.todos[i]);
        proof {
            let pre = tasks.take(i as int);
            let post = tasks.take(i + 1);
            assert(post.drop_last() =~= pre);
            assert(post.last() == tasks[i as int]);
            if i == 0 {
                assert(post.len() == 1);
                assert(post[0] == tasks[0]);
                assert(out@ =~= head + tasks_json(post));
            } else {
                assert(out@ =~= head + tasks_json(post));
            }
        }
        i += 1;
    }
    proof {
        assert(tasks.take(n as int) =~= tasks);
    }
    if n == 0 {
        out.append("]\n}");
    } else {
        out.append("\n  ]\n}");
    }
    proof {
        assert(out@ =~= db_json(db@));
    }
    out
}


/// A stored file that is not the canonical text of any database.
#[derive(Debug, Clone, Copy, PartialEq, Eq, Structural)]
pub enum ParseError {
    Malformed,
}

/// Whether `c` is a decimal digit.
pub open spec fn is_digit_char(c: char) -> bool {
    c == '0' || c == '1' || c == '2' || c == '3' || c == '4' || c == '5' || c == '6' || c == '7'
        || c == '8' || c == '9'
}

/// The value of one decimal digit character.
pub open spec fn digit_val(c: char) -> int {
    if c == '0' {
        0
    } else if c == '1' {
        1
    } else if c == '2' {
        2
    } else if c == '3' {
        3
    } else if c == '4' {
        4
    } else if c == '5' {
        5
    } else if c == '6' {
        6
    } else if c == '7' {
        7
    } else if c == '8' {
        8
    } else {
        9
    }
}

/// The number a digit string denotes, most significant digit first.
pub open spec fn digits_val(s: Seq<char>) -> int
    decreases s.len(),
{
    if s.len() == 0 {
        0
    } else {
        digits_val(s.drop_last()) * 10 + digit_val(s.last())
    }
}

/// A digit string beginning with a non-zero digit denotes at least 1.
proof fn lemma_digits_lower(s: Seq<char>)
    requires
        s.len() >= 1,
        forall|i: int| 0 <= i < s.len() ==> is_digit_char(#[trigger] s[i]),
        s[0] != '0',
    ensures
        digits_val(s) >= 1,
    decreases s.len(),
{
    reveal_with_fuel(digits_val, 2);
    if s.len() == 1 {
        assert(s.drop_last() =~= Seq::<char>::empty());
    } else {
        let a = s.drop_last();
        assert(a[0] == s[0]);
        lemma_digits_lower(a);
        assert(digit_val(s.last()) >= 0);
    }
}

/// A digit string denotes a non-negative number.
proof fn lemma_digits_nonneg(s: Seq<char>)
    requires
        forall|i: int| 0 <= i < s.len() ==> is_digit_char(#[trigger] s[i]),
    ensures
        digits_val(s) >= 0,
    decreases s.len(),
{
    if s.len() > 0 {
        lemma_digits_nonneg(s.drop_last());
        assert(digit_val(s.last()) >= 0);
    }
}

/// The canonical decimal form is the only digit string without a leading
/// zero that denotes its number.
proof fn lemma_digits_canon(s: Seq<char>)
    requires
        s.len() >= 1,
        forall|i: int| 0 <= i < s.len() ==> is_digit_char(#[trigger] s[i]),
        s[0] != '0' || s.len() == 1,
    ensures
        digits_val(s) >= 0,
        s == dec_str(digits_val(s)),
    decreases s.len(),
{
    reveal_with_fuel(digits_val, 2);
    lemma_digits_nonneg(s);
    if s.len() == 1 {
        assert(s.drop_last() =~= Seq::<char>::empty());
        assert(digits_val(s) == digit_val(s[0]));
        assert(s =~= dec_str(digits_val(s)));
    } else {
        let a = s.drop_last();
        assert(a[0] == s[0]);
        lemma_digits_canon(a);
        lemma_digits_lower(a);
        let v = digits_val(s);
        let d = digit_val(s.last());
        assert(v == digits_val(a) * 10 + d);
        assert(v / 10 == digits_val(a) && v % 10 == d) by (nonlinear_arith)
            requires
                v == digits_val(a) * 10 + d,
                0 <= d < 10,
                digits_val(a) >= 1,
        ;
        assert(v >= 10);
        assert(dec_str(v) == dec_str(v / 10).push(digit_char(v % 10)));
        assert(digit_char(digit_val(s.last())) == s.last());
        assert(s =~= dec_str(v));
    }
}

/// What the canonical decimal form looks like: at least one character,
/// digits throughout, a leading zero only for the number 0 itself, and
/// it denotes exactly its number.
proof fn lemma_dec_str_shape(n: int)
    requires
        n >= 0,
    ensures
        dec_str(n).len() >= 1,
        forall|i: int| 0 <= i < dec_str(n).len() ==> is_digit_char(#[trigger] dec_str(n)[i]),
        n >= 1 ==> dec_str(n)[0] != '0',
        n == 0 ==> dec_str(n) == seq!['0'],
        digits_val(dec_str(n)) == n,
    decreases n,
{
    reveal_with_fuel(digits_val, 2);
    if n < 10 {
        assert(seq![digit_char(n)].drop_last() =~= Seq::<char>::empty());
    } else {
        lemma_dec_str_shape(n / 10);
        let a = dec_str(n / 10);
        let c = digit_char(n % 10);
        assert(a.push(c).drop_last() =~= a);
        assert(digits_val(dec_str(n)) == (n / 10) * 10 + (n % 10));
        assert forall|i: int| 0 <= i < dec_str(n).len() implies is_digit_char(
            #[trigger] dec_str(n)[i],
        ) by {
            if i < a.len() {
                assert(dec_str(n)[i] == a[i]);
            }
        }
    }
}

/// Reading more digits never shrinks the number.
proof fn lemma_digits_val_prefix(t: Seq<char>, j: int)
    requires
        forall|i: int| 0 <= i < t.len() ==> is_digit_char(#[trigger] t[i]),
        0 <= j <= t.len(),
    ensures
        digits_val(t.take(j)) <= digits_val(t),
    decreases t.len(),
{
    if j == t.len() {
        assert(t.take(j) =~= t);
    } else {
        let a = t.drop_last();
        assert(t.take(j) =~= a.take(j));
        lemma_digits_val_prefix(a, j);
        lemma_digits_nonneg(a);
        assert(digit_val(t.last()) >= 0);
    }
}

/// The text at `pos` continues with the canonical decimal form of `w`,
/// and the run of digits ends there.
spec fn dec_at(s: Seq<char>, pos: int, w: u64) -> bool {
    let l = dec_str(w as int).len();
    &&& pos + l <= s.len()
    &&& s.subrange(pos, pos + l) == dec_str(w as int)
    &&& (pos + l == s.len() || !is_digit_char(s[pos + l]))
}

/// A maximal digit run read from `pos` is the same run, whatever
/// canonical number the text was written from.
proof fn lemma_dec_run_unique(s: Seq<char>, pos: int, p: int, v: u64, w: u64)
    requires
        0 <= pos <= p <= s.len(),
        s.subrange(pos, p) == dec_str(v as int),
        p == s.len() || !is_digit_char(s[p]),
        dec_at(s, pos, w),
    ensures
        w == v,
        p == pos + dec_str(w as int).len(),
{
    lemma_dec_str_shape(v as int);
    lemma_dec_str_shape(w as int);
    let lv = dec_str(v as int).len();
    let lw = dec_str(w as int).len();
    assert(p - pos == lv);
    if pos + lw < p {
        assert(s[pos + lw] == s.subrange(pos, p)[lw as int]);
        assert(is_digit_char(s[pos + lw]));
    } else if pos + lw > p {
        assert(s[p] == s.subrange(pos, pos + lw)[p - pos]);
        assert(is_digit_char(s[p]));
    }
    assert(dec_str(v as int) =~= dec_str(w as int));
    assert(v as int == digits_val(dec_str(v as int)));
}

/// A middle cut splits a subrange in two.
proof fn lemma_subrange_split(s: Seq<char>, a: int, b: int, c: int)
    requires
        0 <= a <= b <= c <= s.len(),
    ensures
        s.subrange(a, c) == s.subrange(a, b) + s.subrange(b, c),
{
    assert(s.subrange(a, c) =~= s.subrange(a, b) + s.subrange(b, c));
}

/// The digit value of `c`, if it has one.
fn char_digit(c: char) -> (r: Option<u64>)
    ensures
        r matches Some(d) ==> is_digit_char(c) && d < 10 && d as int == digit_val(c),
        r is None ==> !is_digit_char(c),
{
    match c {
        '0' => Some(0),
        '1' => Some(1),
        '2' => Some(2),
        '3' => Some(3),
        '4' => Some(4),
        '5' => Some(5),
        '6' => Some(6),
        '7' => Some(7),
        '8' => Some(8),
        '9' => Some(9),
        _ => None,
    }
}

/// Consumes `lit` at `pos`, or nothing; it succeeds exactly when the
/// text at `pos` continues with `lit`.
#[verifier::loop_isolation(false)]
fn expect_lit(s: &str, pos: usize, lit: &str) -> (r: Option<usize>)
    requires
        pos <= s@.len(),
    ensures
        r matches Some(p2) ==> pos <= p2 <= s@.len() && p2 == pos + lit@.len()
            && s@.subrange(pos as int, p2 as int) == lit@,
        pos + lit@.len() <= s@.len() && s@.subrange(pos as int, pos + lit@.len()) == lit@
            ==> r is Some,
{
    let m = lit.unicode_len();
    let n = s.unicode_len();
    if m > n - pos {
        return None;
    }
    let mut j: usize = 0;
    while j < m
        invariant
            j <= m,
            pos + m <= n,
            n == s@.len(),
            m == lit@.len(),
            forall|k: int| 0 <= k < j ==> s@[pos + k] == #[trigger] lit@[k],
        decreases m - j,
    {
        if s.get_char(pos + j) != lit.get_char(j) {
            proof {
                if s@.subrange(pos as int, pos + lit@.len()) == lit@ {
                    assert(s@.subrange(pos as int, pos + lit@.len())[j as int] == s@[pos + j]);
                }
            }
            return None;
        }
        j += 1;
    }
    proof {
        assert(s@.subrange(pos as int, (pos + m) as int) =~= lit@);
    }
    Some(pos + m)
}

/// Consumes the one character `c` at `pos`, or nothing.
fn expect_char(s: &str, pos: usize, c: char) -> (r: Option<usize>)
    requires
        pos <= s@.len(),
    ensures
        r matches Some(p2) ==> p2 == pos + 1 && pos < s@.len() && s@[pos as int] == c
            && s@.subrange(pos as int, p2 as int) == seq![c],
        pos < s@.len() && s@[pos as int] == c ==> r is Some,
{
    if pos < s.unicode_len() && s.get_char(pos) == c {
        proof {
            assert(s@.subrange(pos as int, pos + 1) =~= seq![c]);
        }
        Some(pos + 1)
    } else {
        None
    }
}

/// Consumes a canonical unsigned decimal at `pos`: what it consumes is
/// exactly the canonical form of what it returns, and it succeeds on
/// every text that continues with such a form.
#[verifier::loop_isolation(false)]
fn parse_u64(s: &str, pos: usize) -> (r: Option<(u64, usize)>)
    requires
        pos <= s@.len(),
    ensures
        r matches Some(v) ==> pos < v.1 <= s@.len() && s@.subrange(pos as int, v.1 as int)
            == dec_str(v.0 as int),
        r matches Some(v) ==> v.1 == s@.len() || !is_digit_char(s@[v.1 as int]),
        forall|w: u64| dec_at(s@, pos as int, w) ==> (r matches Some(v) && v.0 == w && v.1
            == pos + dec_str(w as int).len()),
{
    let n = s.unicode_len();
    if pos >= n {
        proof {
            assert forall|w: u64| !dec_at(s@, pos as int, w) by {
                lemma_dec_str_shape(w as int);
            }
        }
        return None;
    }
    let d0 = match char_digit(s.get_char(pos)) {
        Some(d) => d,
        None => {
            proof {
                assert forall|w: u64| !dec_at(s@, pos as int, w) by {
                    lemma_dec_str_shape(w as int);
                    if dec_at(s@, pos as int, w) {
                        assert(s@[pos as int] == s@.subrange(
                            pos as int,
                            pos + dec_str(w as int).len(),
                        )[0]);
                    }
                }
            }
            return None;
        },
    };
    if d0 == 0 {
        if pos + 1 < n {
            match char_digit(s.get_char(pos + 1)) {
                Some(_) => {
                    proof {
                        assert forall|w: u64| !dec_at(s@, pos as int, w) by {
                            lemma_dec_str_shape(w as int);
                            if dec_at(s@, pos as int, w) {
                                assert(s@[pos as int] == s@.subrange(
                                    pos as int,
                                    pos + dec_str(w as int).len(),
                                )[0]);
                                assert(w == 0);
                            }
                        }
                    }
                    return None;
                },
                None => {},
            }
        }
        proof {
            assert(s@.subrange(pos as int, pos + 1) =~= seq![s@[pos as int]]);
            assert(s@[pos as int] == '0');
            assert(dec_str(0) == seq!['0']);
            assert forall|w: u64| dec_at(s@, pos as int, w) implies (w == 0 && pos
                + dec_str(w as int).len() == pos + 1) by {
                lemma_dec_run_unique(s@, pos as int, pos + 1, 0, w);
            }
        }
        return Some((0, pos + 1));
    }
    let mut acc: u64 = d0;
    let mut p: usize = pos + 1;
    proof {
        reveal_with_fuel(digits_val, 2);
        assert(s@.subrange(pos as int, pos + 1) =~= seq![s@[pos as int]]);
        assert(s@.subrange(pos as int, pos + 1).drop_last() =~= Seq::<char>::empty());
        assert(digits_val(s@.subrange(pos as int, pos + 1)) == digit_val(s@[pos as int]));
    }
    while p < n
        invariant
            n == s@.len(),
            pos < p <= n,
            forall|k: int| pos <= k < p ==> is_digit_char(#[trigger] s@[k]),
            s@[pos as int] != '0',
            acc as int == digits_val(s@.subrange(pos as int, p as int)),
        decreases n - p,
    {
        let c = s.get_char(p);
        match char_digit(c) {
            Some(d) => {
                proof {
                    overflow_means_no_canon(s@, pos as int, p as int, acc, d);
                }
                let m = match acc.checked_mul(10) {
                    Some(m) => m,
                    None => { return None },
                };
                let a2 = match m.checked_add(d) {
                    Some(a2) => a2,
                    None => { return None },
                };
                proof {
                    let x = s@.subrange(pos as int, p as int);
                    let x2 = s@.subrange(pos as int, (p + 1) as int);
                    assert(x2 =~= x.push(s@[p as int]));
                    assert(x2.drop_last() =~= x);
                    assert(digits_val(x2) == digits_val(x) * 10 + digit_val(s@[p as int]));
                }
                acc = a2;
                p += 1;
            },
            None => {
                proof {
                    finish_digits(s@, pos as int, p as int);
                    assert forall|w: u64| dec_at(s@, pos as int, w) implies (w == acc && pos
                        + dec_str(w as int).len() == p as int) by {
                        lemma_dec_run_unique(s@, pos as int, p as int, acc, w);
                    }
                }
                return Some((acc, p));
            },
        }
    }
    proof {
        finish_digits(s@, pos as int, p as int);
        assert forall|w: u64| dec_at(s@, pos as int, w) implies (w == acc && pos + dec_str(
            w as int,
        ).len() == p as int) by {
            lemma_dec_run_unique(s@, pos as int, p as int, acc, w);
        }
    }
    Some((acc, p))
}

/// The scanned digit span is the canonical form of its value.
proof fn finish_digits(s: Seq<char>, pos: int, p: int)
    requires
        0 <= pos < p <= s.len(),
        forall|k: int| pos <= k < p ==> is_digit_char(#[trigger] s[k]),
        s[pos] != '0',
    ensures
        s.subrange(pos, p) == dec_str(digits_val(s.subrange(pos, p))),
        digits_val(s.subrange(pos, p)) >= 0,
{
    let d = s.subrange(pos, p);
    assert(forall|k: int| 0 <= k < d.len() ==> is_digit_char(#[trigger] d[k]));
    assert(d[0] == s[pos]);
    lemma_digits_canon(d);
}

/// When one more digit would overflow the accumulator, no canonical
/// decimal starts at `pos`: its value would have to exceed the type.
proof fn overflow_means_no_canon(s: Seq<char>, pos: int, p: int, acc: u64, d: u64)
    requires
        0 <= pos < p < s.len(),
        forall|k: int| pos <= k < p ==> is_digit_char(#[trigger] s[k]),
        is_digit_char(s[p]),
        d as int == digit_val(s[p]),
        acc as int == digits_val(s.subrange(pos, p)),
    ensures
        forall|w: u64| acc * 10 + d > u64::MAX ==> !dec_at(s, pos, w),
{
    assert forall|w: u64| acc * 10 + d > u64::MAX implies !dec_at(s, pos, w) by {
        if dec_at(s, pos, w) {
            lemma_dec_str_shape(w as int);
            let lw = dec_str(w as int).len();
            if pos + lw <= p {
                assert(is_digit_char(s[pos + lw]));
            }
            assert(pos + lw > p);
            let x2 = s.subrange(pos, p + 1);
            assert(x2 =~= dec_str(w as int).take(p + 1 - pos));
            lemma_digits_val_prefix(dec_str(w as int), p + 1 - pos);
            let x = s.subrange(pos, p);
            assert(x2.drop_last() =~= x);
            assert(digits_val(x2) == digits_val(x) * 10 + digit_val(s[p]));
            assert(digits_val(x2) <= w as int);
        }
    }
}

/// Consumes a canonical signed decimal at `pos`.
/// The text at `pos` continues with the canonical signed decimal form
/// of `w`, and the run of digits ends there.
spec fn int_at(s: Seq<char>, pos: int, w: i64) -> bool {
    let l = int_str(w as int).len();
    &&& pos + l <= s.len()
    &&& s.subrange(pos, pos + l) == int_str(w as int)
    &&& (pos + l == s.len() || !is_digit_char(s[pos + l]))
}

/// What a signed premise says of the first character: a digit run for a
/// non-negative number, a minus sign and then a digit run otherwise.
proof fn lemma_int_at_parts(s: Seq<char>, pos: int, w: i64)
    requires
        int_at(s, pos, w),
        0 <= pos,
    ensures
        pos < s.len(),
        w >= 0 ==> is_digit_char(s[pos]) && dec_at(s, pos, w as u64),
        w < 0 ==> s[pos] == '-' && dec_at(s, pos + 1, (-(w as int)) as u64),
{
    let l = int_str(w as int).len();
    if w >= 0 {
        lemma_dec_str_shape(w as int);
        assert(s[pos] == s.subrange(pos, pos + l)[0]);
    } else {
        let m = (-(w as int)) as u64;
        lemma_dec_str_shape(m as int);
        assert(s[pos] == s.subrange(pos, pos + l)[0]);
        assert(s.subrange(pos + 1, pos + l) =~= dec_str(m as int)) by {
            assert forall|i: int| 0 <= i < l - 1 implies s.subrange(pos + 1, pos + l)[i]
                == dec_str(m as int)[i] by {
                assert(s.subrange(pos + 1, pos + l)[i] == s.subrange(pos, pos + l)[i + 1]);
            }
        }
    }
}

/// Consumes a canonical signed decimal at `pos`: what it consumes is
/// exactly the signed canonical form of what it returns, and it succeeds
/// on every text that continues with such a form.
fn parse_i64(s: &str, pos: usize) -> (r: Option<(i64, usize)>)
    requires
        pos <= s@.len(),
    ensures
        r matches Some(v) ==> pos < v.1 <= s@.len() && s@.subrange(pos as int, v.1 as int)
            == int_str(v.0 as int),
        r matches Some(v) ==> v.1 == s@.len() || !is_digit_char(s@[v.1 as int]),
        forall|w: i64| int_at(s@, pos as int, w) ==> (r matches Some(v) && v.0 == w && v.1
            == pos + int_str(w as int).len()),
{
    let n = s.unicode_len();
    if pos >= n {
        proof {
            assert forall|w: i64| !int_at(s@, pos as int, w) by {
                if int_at(s@, pos as int, w) {
                    lemma_int_at_parts(s@, pos as int, w);
                }
            }
        }
        return None;
    }
    if s.get_char(pos) == '-' {
        proof {
            assert forall|w: i64| int_at(s@, pos as int, w) implies (w < 0 && dec_at(
                s@,
                pos + 1,
                (-(w as int)) as u64,
            )) by {
                lemma_int_at_parts(s@, pos as int, w);
            }
        }
        match parse_u64(s, pos + 1) {
            Some((mag, p2)) => {
                if mag == 0 {
                    proof {
                        assert forall|w: i64| !int_at(s@, pos as int, w) by {
                            if int_at(s@, pos as int, w) {
                                assert(mag as int == -(w as int));
                            }
                        }
                    }
                    return None;
                }
                if mag > 9223372036854775808u64 {
                    proof {
                        assert forall|w: i64| !int_at(s@, pos as int, w) by {
                            if int_at(s@, pos as int, w) {
                                assert(mag as int == -(w as int));
                            }
                        }
                    }
                    return None;
                }
                let v: i64 = if mag == 9223372036854775808u64 {
                    i64::MIN
                } else {
                    -(mag as i64)
                };
                proof {
                    assert(v as int == -(mag as int));
                    lemma_subrange_split(s@, pos as int, pos + 1, p2 as int);
                    assert(s@.subrange(pos as int, pos + 1) =~= seq!['-']);
                    assert(int_str(v as int) == seq!['-'] + dec_str(mag as int));
                    assert forall|w: i64| int_at(s@, pos as int, w) implies (w == v && pos
                        + int_str(w as int).len() == p2 as int) by {
                        assert(mag as int == -(w as int));
                    }
                }
                Some((v, p2))
            },
            None => None,
        }
    } else {
        proof {
            assert forall|w: i64| int_at(s@, pos as int, w) implies (w >= 0 && dec_at(
                s@,
                pos as int,
                w as u64,
            )) by {
                lemma_int_at_parts(s@, pos as int, w);
            }
        }
        match parse_u64(s, pos) {
            Some((mag, p2)) => {
                if mag > 9223372036854775807u64 {
                    proof {
                        assert forall|w: i64| !int_at(s@, pos as int, w) by {
                            if int_at(s@, pos as int, w) {
                                assert(mag == w as u64);
                            }
                        }
                    }
                    return None;
                }
                Some((mag as i64, p2))
            },
            None => None,
        }
    }
}

/// The text at `pos` continues with the quoted image of `t` and then
/// the closing quote.
spec fn str_at(s: Seq<char>, pos: int, t: Seq<char>) -> bool {
    let k = escape_str(t).len();
    &&& pos + k < s.len()
    &&& s.subrange(pos, pos + k) == escape_str(t)
    &&& s[pos + k] == '"'
}

/// The quoted image splits at any cut of the original string.
proof fn lemma_escape_split(t: Seq<char>, k: int)
    requires
        0 <= k <= t.len(),
    ensures
        escape_str(t) == escape_str(t.take(k)) + escape_str(t.skip(k)),
    decreases k,
{
    if k == 0 {
        assert(t.take(0) =~= Seq::<char>::empty());
        assert(t.skip(0) =~= t);
        assert(escape_str(t.take(0)) + escape_str(t.skip(0)) =~= escape_str(t));
    } else {
        lemma_escape_split(t.drop_first(), k - 1);
        assert(t.take(k).drop_first() =~= t.drop_first().take(k - 1));
        assert(t.skip(k) =~= t.drop_first().skip(k - 1));
        assert(t.take(k)[0] == t[0]);
        assert(escape_str(t) =~= escape_str(t.take(k)) + escape_str(t.skip(k)));
    }
}

/// What the text looks like at a scanner that has matched the first
/// `a.len()` characters of `t`: the closing quote when `t` is spent,
/// else `t`'s next character, escaped or plain.
proof fn lemma_str_at_step(s: Seq<char>, pos: int, p: int, a: Seq<char>, t: Seq<char>)
    requires
        str_at(s, pos, t),
        0 <= pos <= p,
        a.len() <= t.len(),
        a == t.take(a.len() as int),
        p == pos + escape_str(a).len(),
    ensures
        a.len() == t.len() ==> p == pos + escape_str(t).len() && s[p] == '"',
        a.len() < t.len() && (t[a.len() as int] == '"' || t[a.len() as int] == '\\')
            ==> s[p] == '\\' && p + 2 <= pos + escape_str(t).len() && s[p + 1] == t[a.len() as int],
        a.len() < t.len() && !(t[a.len() as int] == '"' || t[a.len() as int] == '\\')
            ==> s[p] == t[a.len() as int] && p + 1 <= pos + escape_str(t).len(),
{
    let k = a.len() as int;
    let kk = escape_str(t).len();
    lemma_escape_split(t, k);
    if k == t.len() {
        assert(t.skip(k) =~= Seq::<char>::empty());
        assert(escape_str(t) =~= escape_str(a));
    } else {
        let c = t[k];
        let rest = t.skip(k);
        assert(rest[0] == c);
        assert(escape_str(rest) == escape_char(c) + escape_str(rest.drop_first()));
        if c == '"' || c == '\\' {
            assert(s[p] == s.subrange(pos, pos + kk)[p - pos]);
            assert(s[p + 1] == s.subrange(pos, pos + kk)[p + 1 - pos]);
            assert(escape_str(t)[p - pos] == '\\');
            assert(escape_str(t)[p + 1 - pos] == c);
        } else {
            assert(s[p] == s.subrange(pos, pos + kk)[p - pos]);
            assert(escape_str(t)[p - pos] == c);
        }
    }
}

/// Consumes a quoted span at `pos` (the opening quote already consumed):
/// what it consumes is exactly the quoted image of what it returns plus
/// the closing quote, and every properly quoted span is accepted and
/// returned exactly.
#[verifier::loop_isolation(false)]
fn parse_string(s: &str, pos: usize) -> (r: Option<(String, usize)>)
    requires
        pos <= s@.len(),
    ensures
        r matches Some(v) ==> pos < v.1 <= s@.len() && s@.subrange(pos as int, v.1 as int)
            == escape_str(v.0@) + seq!['"'],
        forall|t: Seq<char>| #[trigger] str_at(s@, pos as int, t) ==> (r matches Some(v)
            && v.0@ == t && v.1 == pos + escape_str(t).len() + 1),
{
    let n = s.unicode_len();
    let mut out = String::new();
    let mut p: usize = pos;
    proof {
        assert(s@.subrange(pos as int, pos as int) =~= escape_str(out@));
        assert forall|t: Seq<char>| #[trigger] str_at(s@, pos as int, t) implies (out@.len()
            <= t.len() && out@ == t.take(out@.len() as int)) by {
            assert(t.take(0) =~= out@);
        }
    }
    while p < n
        invariant
            n == s@.len(),
            pos <= p <= n,
            s@.subrange(pos as int, p as int) == escape_str(out@),
            forall|t: Seq<char>| #[trigger] str_at(s@, pos as int, t) ==> (out@.len()
                <= t.len() && out@ == t.take(out@.len() as int)),
        decreases n - p,
    {
        let c = s.get_char(p);
        if c == '"' {
            proof {
                assert(s@.subrange(pos as int, (p + 1) as int) =~= escape_str(out@)
                    + seq!['"']);
                assert forall|t: Seq<char>| #[trigger] str_at(s@, pos as int, t) implies (
                out@ == t && p + 1 == pos + escape_str(t).len() + 1) by {
                    lemma_str_at_step(s@, pos as int, p as int, out@, t);
                    assert(out@.len() == t.len());
                    assert(t.take(t.len() as int) =~= t);
                }
            }
            return Some((out, p + 1));
        } else if c == '\\' {
            proof {
                assert forall|t: Seq<char>| #[trigger] str_at(s@, pos as int, t) implies (
                out@.len() < t.len() && (t[out@.len() as int] == '"' || t[out@.len() as int]
                    == '\\') && p + 2 <= pos + escape_str(t).len() && s@[p + 1]
                    == t[out@.len() as int]) by {
                    lemma_str_at_step(s@, pos as int, p as int, out@, t);
                }
            }
            if p + 1 >= n {
                return None;
            }
            let c2 = s.get_char(p + 1);
            if c2 == '"' || c2 == '\\' {
                let ghost o0 = out@;
                out.push(c2);
                proof {
                    lemma_escape_push(o0, c2);
                    assert(s@.subrange(pos as int, (p + 2) as int) =~= escape_str(o0)
                        + seq!['\\', c2]);
                    assert forall|t: Seq<char>| #[trigger] str_at(s@, pos as int, t) implies (
                    out@.len() <= t.len() && out@ == t.take(out@.len() as int)) by {
                        assert(o0.push(t[o0.len() as int]) =~= t.take(o0.len() as int + 1));
                    }
                }
                p += 2;
            } else {
                return None;
            }
        } else {
            proof {
                assert forall|t: Seq<char>| #[trigger] str_at(s@, pos as int, t) implies (
                out@.len() < t.len() && t[out@.len() as int] == c && !(t[out@.len() as int]
                    == '"' || t[out@.len() as int] == '\\') && p + 1 <= pos + escape_str(
                    t,
                ).len()) by {
                    lemma_str_at_step(s@, pos as int, p as int, out@, t);
                }
            }
            let ghost o0 = out@;
            out.push(c);
            proof {
                lemma_escape_push(o0, c);
                assert(s@.subrange(pos as int, (p + 1) as int) =~= escape_str(o0) + seq![c]);
                assert forall|t: Seq<char>| #[trigger] str_at(s@, pos as int, t) implies (
                out@.len() <= t.len() && out@ == t.take(out@.len() as int)) by {
                    assert(o0.push(t[o0.len() as int]) =~= t.take(o0.len() as int + 1));
                }
            }
            p += 1;
        }
    }
    proof {
        assert forall|t: Seq<char>| !str_at(s@, pos as int, t) by {
            if str_at(s@, pos as int, t) {
                lemma_str_at_step(s@, pos as int, p as int, out@, t);
                if out@.len() == t.len() {
                    assert(p as int == pos + escape_str(t).len());
                } else if t[out@.len() as int] == '"' || t[out@.len() as int] == '\\' {
                    assert(p + 2 <= pos + escape_str(t).len());
                } else {
                    assert(p + 1 <= pos + escape_str(t).len());
                }
            }
        }
    }
    None
}

/// The text at `pos` continues with the bracketed text of instant `t`.
spec fn ts_at(s: Seq<char>, pos: int, t: Timestamp) -> bool {
    &&& pos + ts_json(t).len() <= s.len()
    &&& s.subrange(pos, pos + ts_json(t).len()) == ts_json(t)
}

/// What that premise says piece by piece: the brackets, the three
/// numbers each ending at a separator, and the separators at their
/// places.
#[verifier::rlimit(100)]
proof fn lemma_ts_at_parts(s: Seq<char>, pos: int, t: Timestamp)
    requires
        0 <= pos,
        ts_at(s, pos, t),
    ensures
        ({
            let q1 = pos + 1;
            let q2 = q1 + int_str(t.secs as int).len();
            let q3 = q2 + 2;
            let q4 = q3 + dec_str(t.nanos as int).len();
            let q5 = q4 + 2;
            let q6 = q5 + int_str(t.offset_secs as int).len();
            &&& pos + ts_json(t).len() == q6 + 1 <= s.len()
            &&& s[pos] == '['
            &&& int_at(s, q1, t.secs)
            &&& s.subrange(q2, q3) == ", "@
            &&& dec_at(s, q3, t.nanos as u64)
            &&& s.subrange(q4, q5) == ", "@
            &&& int_at(s, q5, t.offset_secs as i64)
            &&& s[q6] == ']'
        }),
{
    reveal_strlit(", ");
    let j = ts_json(t);
    let a = seq!['['];
    let b = int_str(t.secs as int);
    let c = ", "@;
    let d = dec_str(t.nanos as int);
    let f = int_str(t.offset_secs as int);
    let g = seq![']'];
    let l1 = b.len() as int;
    let l2 = d.len() as int;
    let l3 = f.len() as int;
    let q1 = pos + 1;
    let q2 = q1 + l1;
    let q3 = q2 + 2;
    let q4 = q3 + l2;
    let q5 = q4 + 2;
    let q6 = q5 + l3;
    assert(c =~= seq![',', ' ']);
    assert((a + b).len() == 1 + l1);
    assert((a + b + c).len() == 1 + l1 + 2);
    assert((a + b + c + d).len() == 1 + l1 + 2 + l2);
    assert((a + b + c + d + c).len() == 1 + l1 + 2 + l2 + 2);
    assert((a + b + c + d + c + f).len() == 1 + l1 + 2 + l2 + 2 + l3);
    let L = j.len() as int;
    assert(L == 1 + l1 + 2 + l2 + 2 + l3 + 1);
    assert forall|i: int| 0 <= i < L implies s[pos + i] == #[trigger] j[i] by {
        assert(s[pos + i] == s.subrange(pos, pos + L)[i]);
    }
    assert(j[0] == '[');
    assert(j.subrange(1, q2 - pos) =~= b);
    assert(j.subrange(q2 - pos, q3 - pos) =~= c);
    assert(j.subrange(q3 - pos, q4 - pos) =~= d);
    assert(j.subrange(q4 - pos, q5 - pos) =~= c);
    assert(j.subrange(q5 - pos, q6 - pos) =~= f);
    assert(j[q6 - pos] == ']');
    assert(s[pos] == '[');
    assert(s.subrange(q1, q2) =~= b);
    assert(s.subrange(q2, q3) =~= c);
    assert(s.subrange(q3, q4) =~= d);
    assert(s.subrange(q4, q5) =~= c);
    assert(s.subrange(q5, q6) =~= f);
    assert(s[q6] == ']');
    assert(s[q2] == ',');
    assert(s[q4] == ',');
}

/// Consumes the bracketed text of one instant at `pos`; every text that
/// continues with such an instant is accepted and returned exactly.
fn parse_ts(s: &str, pos: usize) -> (r: Option<(Timestamp, usize)>)
    requires
        pos <= s@.len(),
    ensures
        r matches Some(v) ==> pos < v.1 <= s@.len() && s@.subrange(pos as int, v.1 as int)
            == ts_json(v.0),
        forall|w: Timestamp| #[trigger] ts_at(s@, pos as int, w) ==> (r matches Some(v)
            && v.0 == w && v.1 == pos + ts_json(w).len()),
{
    let p1 = match expect_char(s, pos, '[') {
        Some(p) => p,
        None => {
            proof {
                assert forall|w: Timestamp| !ts_at(s@, pos as int, w) by {
                    if ts_at(s@, pos as int, w) {
                        lemma_ts_at_parts(s@, pos as int, w);
                    }
                }
            }
            return None;
        },
    };
    let (secs, p2) = match parse_i64(s, p1) {
        Some(x) => x,
        None => {
            proof {
                assert forall|w: Timestamp| !ts_at(s@, pos as int, w) by {
                    if ts_at(s@, pos as int, w) {
                        lemma_ts_at_parts(s@, pos as int, w);
                    }
                }
            }
            return None;
        },
    };
    let p3 = match expect_lit(s, p2, ", ") {
        Some(p) => p,
        None => {
            proof {
                assert forall|w: Timestamp| !ts_at(s@, pos as int, w) by {
                    if ts_at(s@, pos as int, w) {
                        lemma_ts_at_parts(s@, pos as int, w);
                    }
                }
            }
            return None;
        },
    };
    let (nanos64, p4) = match parse_u64(s, p3) {
        Some(x) => x,
        None => {
            proof {
                assert forall|w: Timestamp| !ts_at(s@, pos as int, w) by {
                    if ts_at(s@, pos as int, w) {
                        lemma_ts_at_parts(s@, pos as int, w);
                    }
                }
            }
            return None;
        },
    };
    if nanos64 > 0xFFFF_FFFFu64 {
        proof {
            assert forall|w: Timestamp| !ts_at(s@, pos as int, w) by {
                if ts_at(s@, pos as int, w) {
                    lemma_ts_at_parts(s@, pos as int, w);
                    assert(nanos64 == w.nanos as u64);
                }
            }
        }
        return None;
    }
    let p5 = match expect_lit(s, p4, ", ") {
        Some(p) => p,
        None => {
            proof {
                assert forall|w: Timestamp| !ts_at(s@, pos as int, w) by {
                    if ts_at(s@, pos as int, w) {
                        lemma_ts_at_parts(s@, pos as int, w);
                    }
                }
            }
            return None;
        },
    };
    let (off64, p6) = match parse_i64(s, p5) {
        Some(x) => x,
        None => {
            proof {
                assert forall|w: Timestamp| !ts_at(s@, pos as int, w) by {
                    if ts_at(s@, pos as int, w) {
                        lemma_ts_at_parts(s@, pos as int, w);
                    }
                }
            }
            return None;
        },
    };
    if off64 > 2147483647i64 || off64 < -2147483648i64 {
        proof {
            assert forall|w: Timestamp| !ts_at(s@, pos as int, w) by {
                if ts_at(s@, pos as int, w) {
                    lemma_ts_at_parts(s@, pos as int, w);
                    assert(off64 == w.offset_secs as i64);
                }
            }
        }
        return None;
    }
    let p7 = match expect_char(s, p6, ']') {
        Some(p) => p,
        None => {
            proof {
                assert forall|w: Timestamp| !ts_at(s@, pos as int, w) by {
                    if ts_at(s@, pos as int, w) {
                        lemma_ts_at_parts(s@, pos as int, w);
                    }
                }
            }
            return None;
        },
    };
    let out_ts = Timestamp { secs, nanos: nanos64 as u32, offset_secs: off64 as i32 };
    proof {
        lemma_subrange_split(s@, pos as int, p1 as int, p2 as int);
        lemma_subrange_split(s@, pos as int, p2 as int, p3 as int);
        lemma_subrange_split(s@, pos as int, p3 as int, p4 as int);
        lemma_subrange_split(s@, pos as int, p4 as int, p5 as int);
        lemma_subrange_split(s@, pos as int, p5 as int, p6 as int);
        lemma_subrange_split(s@, pos as int, p6 as int, p7 as int);
        assert(s@.subrange(pos as int, p7 as int) == ts_json(out_ts));
        assert forall|w: Timestamp| #[trigger] ts_at(s@, pos as int, w) implies (out_ts == w
            && p7 as int == pos + ts_json(w).len()) by {
            lemma_ts_at_parts(s@, pos as int, w);
            assert(secs == w.secs);
            assert(nanos64 == w.nanos as u64);
            assert(off64 == w.offset_secs as i64);
        }
    }
    Some((out_ts, p7))
}


/// Appending a record extends the task-list text by a separator and the
/// record's text.
proof fn lemma_tasks_json_push(ts: Seq<TaskView>, t: TaskView)
    requires
        ts.len() >= 1,
    ensures
        tasks_json(ts.push(t)) == tasks_json(ts) + ",\n    "@ + task_json(t),
{
    assert(ts.push(t).drop_last() =~= ts);
    assert(tasks_json(ts.push(t)) =~= tasks_json(ts) + ",\n    "@ + task_json(t));
}

/// The text at `pos` continues with the canonical text of record `t`,
/// whose title is a valid one.
spec fn task_at(s: Seq<char>, pos: int, t: TaskView) -> bool {
    &&& !crate::value_objects::is_blank(t.title)
    &&& pos + task_json(t).len() <= s.len()
    &&& s.subrange(pos, pos + task_json(t).len()) == task_json(t)
}

/// What that premise says piece by piece: each literal, the identifier
/// run, the quoted title, the two instants and the closing brace, each
/// at its place.
#[verifier::rlimit(100)]
proof fn lemma_task_at_parts(s: Seq<char>, pos: int, t: TaskView)
    requires
        0 <= pos,
        task_at(s, pos, t),
    ensures
        ({
            let r1 = pos + 7;
            let r2 = r1 + dec_str(t.id as int).len();
            let r3 = r2 + 12;
            let r4 = r3 + escape_str(t.title).len();
            let r6 = r4 + 1 + 16;
            let r7 = r6 + ts_json(t.created_at).len();
            let r8 = r7 + 18;
            let r9 = r8 + status_json(t.status).len();
            &&& pos + task_json(t).len() == r9 + 1 <= s.len()
            &&& "{\"id\": "@.len() == 7
            &&& ", \"title\": \""@.len() == 12
            &&& ", \"created_at\": "@.len() == 16
            &&& ", \"completed_at\": "@.len() == 18
            &&& "null"@.len() == 4
            &&& s.subrange(pos, r1) == "{\"id\": "@
            &&& dec_at(s, r1, t.id as u64)
            &&& s.subrange(r2, r3) == ", \"title\": \""@
            &&& str_at(s, r3, t.title)
            &&& s.subrange(r4 + 1, r6) == ", \"created_at\": "@
            &&& ts_at(s, r6, t.created_at)
            &&& s.subrange(r7, r8) == ", \"completed_at\": "@
            &&& (t.status matches TodoStatus::Active ==> s.subrange(r8, r9) == "null"@)
            &&& (t.status matches TodoStatus::Completed { completed_at } ==> ts_at(s, r8, completed_at)
                && s[r8] == '[')
            &&& s[r9] == '}'
        }),
{
    reveal_strlit("{\"id\": ");
    reveal_strlit(", \"title\": \"");
    reveal_strlit(", \"created_at\": ");
    reveal_strlit(", \"completed_at\": ");
    reveal_strlit("null");
    let j = task_json(t);
    let a = "{\"id\": "@;
    let b = dec_str(t.id as int);
    let c = ", \"title\": \""@;
    let d = escape_str(t.title);
    let e = seq!['"'];
    let f = ", \"created_at\": "@;
    let g = ts_json(t.created_at);
    let h = ", \"completed_at\": "@;
    let o = status_json(t.status);
    let z = seq!['}'];
    let r1 = pos + 7;
    let r2 = r1 + b.len() as int;
    let r3 = r2 + 12;
    let r4 = r3 + d.len() as int;
    let r6 = r4 + 1 + 16;
    let r7 = r6 + g.len() as int;
    let r8 = r7 + 18;
    let r9 = r8 + o.len() as int;
    assert(a.len() == 7 && c.len() == 12 && f.len() == 16 && h.len() == 18);
    assert((a + b).len() == 7 + b.len());
    assert((a + b + c).len() == r3 - pos);
    assert((a + b + c + d).len() == r4 - pos);
    assert((a + b + c + d + e).len() == r4 + 1 - pos);
    assert((a + b + c + d + e + f).len() == r6 - pos);
    assert((a + b + c + d + e + f + g).len() == r7 - pos);
    assert((a + b + c + d + e + f + g + h).len() == r8 - pos);
    assert((a + b + c + d + e + f + g + h + o).len() == r9 - pos);
    let L = j.len() as int;
    assert(L == r9 + 1 - pos);
    assert forall|i: int| 0 <= i < L implies s[pos + i] == #[trigger] j[i] by {
        assert(s[pos + i] == s.subrange(pos, pos + L)[i]);
    }
    assert(j.subrange(0, 7) =~= a);
    assert(j.subrange(7, r2 - pos) =~= b);
    assert(j.subrange(r2 - pos, r3 - pos) =~= c);
    assert(j.subrange(r3 - pos, r4 - pos) =~= d);
    assert(j[r4 - pos] == '"');
    assert(j.subrange(r4 + 1 - pos, r6 - pos) =~= f);
    assert(j.subrange(r6 - pos, r7 - pos) =~= g);
    assert(j.subrange(r7 - pos, r8 - pos) =~= h);
    assert(j.subrange(r8 - pos, r9 - pos) =~= o);
    assert(j[r9 - pos] == '}');
    assert(s.subrange(pos, r1) =~= a);
    assert(s.subrange(r1, r2) =~= b);
    assert(s.subrange(r2, r3) =~= c);
    assert(s.subrange(r3, r4) =~= d);
    assert(s[r4] == '"');
    assert(s.subrange(r4 + 1, r6) =~= f);
    assert(s.subrange(r6, r7) =~= g);
    assert(s.subrange(r7, r8) =~= h);
    assert(s.subrange(r8, r9) =~= o);
    assert(s[r9] == '}');
    assert(s[r2] == s.subrange(r2, r3)[0]);
    assert(s[r2] == ',');
    assert("null"@.len() == 4);
    lemma_dec_str_shape(t.id as int);
    match t.status {
        TodoStatus::Active => {},
        TodoStatus::Completed { completed_at } => {
            assert(ts_at(s, r8, completed_at));
            lemma_ts_at_parts(s, r8, completed_at);
        },
    }
}

/// Consumes the text of one task record at `pos`: what it consumes is
/// exactly the canonical text of the record it returns, and every text
/// that continues with a valid record is accepted and returned exactly.
#[verifier::rlimit(100)]
fn parse_task(s: &str, pos: usize) -> (r: Option<(Todo, usize)>)
    requires
        pos <= s@.len(),
    ensures
        r matches Some(v) ==> pos < v.1 <= s@.len() && s@.subrange(pos as int, v.1 as int)
            == task_json(v.0@),
        forall|w: TaskView| #[trigger] task_at(s@, pos as int, w) ==> (r matches Some(v)
            && v.0@ == w && v.1 == pos + task_json(w).len()),
{
    let p1 = match expect_lit(s, pos, "{\"id\": ") {
        Some(p) => p,
        None => {
            proof {
                assert forall|w: TaskView| !task_at(s@, pos as int, w) by {
                    if task_at(s@, pos as int, w) {
                        lemma_task_at_parts(s@, pos as int, w);
                    }
                }
            }
            return None;
        },
    };
    let (id64, p2) = match parse_u64(s, p1) {
        Some(x) => x,
        None => {
            proof {
                assert forall|w: TaskView| !task_at(s@, pos as int, w) by {
                    if task_at(s@, pos as int, w) {
                        lemma_task_at_parts(s@, pos as int, w);
                    }
                }
            }
            return None;
        },
    };
    if id64 > 0xFFFF_FFFFu64 {
        proof {
            assert forall|w: TaskView| !task_at(s@, pos as int, w) by {
                if task_at(s@, pos as int, w) {
                    lemma_task_at_parts(s@, pos as int, w);
                    assert(id64 == w.id as u64);
                }
            }
        }
        return None;
    }
    let p3 = match expect_lit(s, p2, ", \"title\": \"") {
        Some(p) => p,
        None => {
            proof {
                assert forall|w: TaskView| !task_at(s@, pos as int, w) by {
                    if task_at(s@, pos as int, w) {
                        lemma_task_at_parts(s@, pos as int, w);
                    }
                }
            }
            return None;
        },
    };
    let (title, p4) = match parse_string(s, p3) {
        Some(x) => x,
        None => {
            proof {
                assert forall|w: TaskView| !task_at(s@, pos as int, w) by {
                    if task_at(s@, pos as int, w) {
                        lemma_task_at_parts(s@, pos as int, w);
                    }
                }
            }
            return None;
        },
    };
    let ghost title_view = title@;
    let nes = match crate::value_objects::NonEmptyString::new(title) {
        Ok(t) => t,
        Err(_) => {
            proof {
                assert forall|w: TaskView| !task_at(s@, pos as int, w) by {
                    if task_at(s@, pos as int, w) {
                        lemma_task_at_parts(s@, pos as int, w);
                        assert(title_view == w.title);
                    }
                }
            }
            return None;
        },
    };
    let p5 = match expect_lit(s, p4, ", \"created_at\": ") {
        Some(p) => p,
        None => {
            proof {
                assert forall|w: TaskView| !task_at(s@, pos as int, w) by {
                    if task_at(s@, pos as int, w) {
                        lemma_task_at_parts(s@, pos as int, w);
                    }
                }
            }
            return None;
        },
    };
    let (created, p6) = match parse_ts(s, p5) {
        Some(x) => x,
        None => {
            proof {
                assert forall|w: TaskView| !task_at(s@, pos as int, w) by {
                    if task_at(s@, pos as int, w) {
                        lemma_task_at_parts(s@, pos as int, w);
                    }
                }
            }
            return None;
        },
    };
    let p7 = match expect_lit(s, p6, ", \"completed_at\": ") {
        Some(p) => p,
        None => {
            proof {
                assert forall|w: TaskView| !task_at(s@, pos as int, w) by {
                    if task_at(s@, pos as int, w) {
                        lemma_task_at_parts(s@, pos as int, w);
                    }
                }
            }
            return None;
        },
    };
    let (status, p8) = match expect_lit(s, p7, "null") {
        Some(p) => {
            proof {
                assert forall|w: TaskView| #[trigger] task_at(s@, pos as int, w) implies (
                w.status == TodoStatus::Active && p as int == p7 + status_json(w.status).len())
                    by {
                    lemma_task_at_parts(s@, pos as int, w);
                    reveal_strlit("null");
                        let r1 = pos as int + 7;
                        let r2 = r1 + dec_str(w.id as int).len();
                        let r3 = r2 + 12;
                        let r4 = r3 + escape_str(w.title).len();
                        let r6 = r4 + 1 + 16;
                        let r7 = r6 + ts_json(w.created_at).len();
                        let r8 = r7 + 18;
                        assert(p1 as int == r1);
                        assert(id64 == w.id as u64 && p2 as int == r2);
                        assert(p3 as int == r3);
                        assert(title_view == w.title && p4 as int == r4 + 1);
                        assert(p5 as int == r6);
                        assert(created == w.created_at && p6 as int == r7);
                        assert(p7 as int == r8);
                    match w.status {
                        TodoStatus::Completed { completed_at } => {
                            assert(w.status == (TodoStatus::Completed { completed_at }));
                            assert(s@[r8] == '[');
                            assert(s@[p7 as int] == s@.subrange(p7 as int, p as int)[0]);
                            assert(s@[p7 as int] == 'n');
                        },
                        TodoStatus::Active => {},
                    }
                }
            }
            (TodoStatus::Active, p)
        },
        None => {
            proof {
                assert forall|w: TaskView| #[trigger] task_at(s@, pos as int, w) implies (
                w.status matches TodoStatus::Completed { .. }) by {
                    lemma_task_at_parts(s@, pos as int, w);
                    reveal_strlit("null");
                    if w.status == TodoStatus::Active {
                        let r1 = pos as int + 7;
                        let r2 = r1 + dec_str(w.id as int).len();
                        let r3 = r2 + 12;
                        let r4 = r3 + escape_str(w.title).len();
                        let r6 = r4 + 1 + 16;
                        let r7 = r6 + ts_json(w.created_at).len();
                        let r8 = r7 + 18;
                        assert(p1 as int == r1);
                        assert(id64 == w.id as u64 && p2 as int == r2);
                        assert(p3 as int == r3);
                        assert(title_view == w.title && p4 as int == r4 + 1);
                        assert(p5 as int == r6);
                        assert(created == w.created_at && p6 as int == r7);
                        assert(p7 as int == r8);
                        assert(s@.subrange(p7 as int, p7 + 4) == "null"@);
                    }
                }
            }
            match parse_ts(s, p7) {
                Some((done_at, p)) => (TodoStatus::Completed { completed_at: done_at }, p),
                None => {
            proof {
                assert forall|w: TaskView| !task_at(s@, pos as int, w) by {
                    if task_at(s@, pos as int, w) {
                        lemma_task_at_parts(s@, pos as int, w);
                        let r1 = pos as int + 7;
                        let r2 = r1 + dec_str(w.id as int).len();
                        let r3 = r2 + 12;
                        let r4 = r3 + escape_str(w.title).len();
                        let r6 = r4 + 1 + 16;
                        let r7 = r6 + ts_json(w.created_at).len();
                        let r8 = r7 + 18;
                        assert(p1 as int == r1);
                        assert(id64 == w.id as u64 && p2 as int == r2);
                        assert(p3 as int == r3);
                        assert(title_view == w.title && p4 as int == r4 + 1);
                        assert(p5 as int == r6);
                        assert(created == w.created_at && p6 as int == r7);
                        assert(p7 as int == r8);
                        match w.status {
                            TodoStatus::Completed { completed_at } => {
                                assert(w.status == (TodoStatus::Completed { completed_at }));
                                assert(ts_at(s@, r8, completed_at));
                            },
                            TodoStatus::Active => {},
                        }
                    }
                }
            }
            return None;
                },
            }
        },
    };
    let p9 = match expect_char(s, p8, '}') {
        Some(p) => p,
        None => {
            proof {
                assert forall|w: TaskView| !task_at(s@, pos as int, w) by {
                    if task_at(s@, pos as int, w) {
                        lemma_task_at_parts(s@, pos as int, w);
                        let r1 = pos as int + 7;
                        let r2 = r1 + dec_str(w.id as int).len();
                        let r3 = r2 + 12;
                        let r4 = r3 + escape_str(w.title).len();
                        let r6 = r4 + 1 + 16;
                        let r7 = r6 + ts_json(w.created_at).len();
                        let r8 = r7 + 18;
                        assert(p1 as int == r1);
                        assert(id64 == w.id as u64 && p2 as int == r2);
                        assert(p3 as int == r3);
                        assert(title_view == w.title && p4 as int == r4 + 1);
                        assert(p5 as int == r6);
                        assert(created == w.created_at && p6 as int == r7);
                        assert(p7 as int == r8);
                        match w.status {
                            TodoStatus::Completed { completed_at } => {
                                assert(w.status == (TodoStatus::Completed { completed_at }));
                                assert(ts_at(s@, r8, completed_at));
                                assert(p8 as int == r8 + ts_json(completed_at).len());
                            },
                            TodoStatus::Active => {
                                assert(p8 as int == r8 + 4);
                            },
                        }
                        assert(s@[p8 as int] == '}');
                    }
                }
            }
            return None;
        },
    };
    let task = Todo {
        id: crate::value_objects::TodoId::new(id64 as u32),
        title: nes,
        status,
        created_at: created,
    };
    proof {
        lemma_subrange_split(s@, pos as int, p1 as int, p2 as int);
        lemma_subrange_split(s@, pos as int, p2 as int, p3 as int);
        lemma_subrange_split(s@, pos as int, p3 as int, p4 as int);
        lemma_subrange_split(s@, pos as int, p4 as int, p5 as int);
        lemma_subrange_split(s@, pos as int, p5 as int, p6 as int);
        lemma_subrange_split(s@, pos as int, p6 as int, p7 as int);
        lemma_subrange_split(s@, pos as int, p7 as int, p8 as int);
        lemma_subrange_split(s@, pos as int, p8 as int, p9 as int);
        assert(s@.subrange(pos as int, p9 as int) =~= task_json(task@));
        assert forall|w: TaskView| #[trigger] task_at(s@, pos as int, w) implies (task@ == w
            && p9 as int == pos + task_json(w).len()) by {
            lemma_task_at_parts(s@, pos as int, w);
            let r1 = pos as int + 7;
            let r2 = r1 + dec_str(w.id as int).len();
            let r3 = r2 + 12;
            let r4 = r3 + escape_str(w.title).len();
            let r6 = r4 + 1 + 16;
            let r7 = r6 + ts_json(w.created_at).len();
            let r8 = r7 + 18;
            assert(p1 as int == r1);
            assert(id64 == w.id as u64 && p2 as int == r2);
            assert(p3 as int == r3);
            assert(title_view == w.title && p4 as int == r4 + 1);
            assert(p5 as int == r6);
            assert(created == w.created_at && p6 as int == r7);
            assert(p7 as int == r8);
            assert(id64 == w.id as u64);
            assert(title_view == w.title);
            assert(created == w.created_at);
            match w.status {
                TodoStatus::Completed { completed_at } => {
                    assert(status == (TodoStatus::Completed { completed_at }));
                },
                TodoStatus::Active => {},
            }
            assert(task@ == w);
        }
    }
    Some((task, p9))
}

/// Any parsed front of the task list sits at the front of the full
/// list's text, and what follows it is the next separator and record.
proof fn lemma_tasks_json_prefix(ts: Seq<TaskView>, k: int)
    requires
        1 <= k <= ts.len(),
    ensures
        tasks_json(ts.take(k)).len() <= tasks_json(ts).len(),
        tasks_json(ts).subrange(0, tasks_json(ts.take(k)).len() as int) == tasks_json(
            ts.take(k),
        ),
        k < ts.len() ==> tasks_json(ts.take(k)).len() + 6 + task_json(ts[k]).len()
            <= tasks_json(ts).len() && tasks_json(ts).subrange(
            tasks_json(ts.take(k)).len() as int,
            tasks_json(ts.take(k)).len() as int + 6 + task_json(ts[k]).len(),
        ) == ",\n    "@ + task_json(ts[k]),
    decreases ts.len() - k,
{
    reveal_strlit(",\n    ");
    assert(",\n    "@.len() == 6);
    if k == ts.len() {
        assert(ts.take(k) =~= ts);
        assert(tasks_json(ts).subrange(0, tasks_json(ts.take(k)).len() as int) =~= tasks_json(
            ts.take(k),
        ));
    } else {
        lemma_tasks_json_prefix(ts, k + 1);
        assert(ts.take(k + 1).drop_last() =~= ts.take(k));
        assert(ts.take(k + 1).last() == ts[k]);
        assert(tasks_json(ts.take(k + 1)) == tasks_json(ts.take(k)) + ",\n    "@ + task_json(
            ts[k],
        ));
        let lk = tasks_json(ts.take(k)).len() as int;
        let lk1 = tasks_json(ts.take(k + 1)).len() as int;
        assert(lk1 == lk + 6 + task_json(ts[k]).len());
        assert(tasks_json(ts).subrange(0, lk) =~= tasks_json(ts.take(k))) by {
            assert forall|i: int| 0 <= i < lk implies tasks_json(ts).subrange(0, lk)[i]
                == tasks_json(ts.take(k))[i] by {
                assert(tasks_json(ts)[i] == tasks_json(ts).subrange(0, lk1)[i]);
                assert(tasks_json(ts.take(k + 1))[i] == tasks_json(ts.take(k))[i]);
            }
        }
        assert(tasks_json(ts).subrange(lk, lk + 6 + task_json(ts[k]).len()) =~= ",\n    "@
            + task_json(ts[k])) by {
            assert forall|i: int| 0 <= i < 6 + task_json(ts[k]).len() implies tasks_json(
                ts,
            ).subrange(lk, lk1)[i] == (",\n    "@ + task_json(ts[k]))[i] by {
                assert(tasks_json(ts).subrange(lk, lk1)[i] == tasks_json(ts).subrange(
                    0,
                    lk1,
                )[lk + i]);
                assert(tasks_json(ts.take(k + 1))[lk + i] == (",\n    "@ + task_json(
                    ts[k],
                ))[i]);
            }
        }
    }
}

/// What the canonical text of a whole well-formed database says piece by
/// piece: the header literals, the quoted version, the counter run, and
/// the task list with its closing.
#[verifier::rlimit(100)]
proof fn lemma_db_at_parts(s: Seq<char>, v: DbView)
    requires
        db_wf(v),
        s == db_json(v),
    ensures
        ({
            let u1: int = 16;
            let u2 = u1 + escape_str(v.version).len();
            let u3 = u2 + 1 + 15;
            let u4 = u3 + dec_str(v.next_id as int).len();
            let u5 = u4 + 14;
            &&& "{\n  \"version\": \""@.len() == 16
            &&& ",\n  \"next_id\": "@.len() == 15
            &&& ",\n  \"todos\": ["@.len() == 14
            &&& "]\n}"@.len() == 3
            &&& "\n  ]\n}"@.len() == 6
            &&& "\n    "@.len() == 5
            &&& ",\n    "@.len() == 6
            &&& s.subrange(0, u1) == "{\n  \"version\": \""@
            &&& str_at(s, u1, v.version)
            &&& s.subrange(u2 + 1, u3) == ",\n  \"next_id\": "@
            &&& dec_at(s, u3, v.next_id as u64)
            &&& s.subrange(u4, u5) == ",\n  \"todos\": ["@
            &&& (v.tasks.len() == 0 ==> s.len() == u5 + 3 && s.subrange(u5, u5 + 3)
                == "]\n}"@)
            &&& (v.tasks.len() >= 1 ==> s.len() == u5 + tasks_json(v.tasks).len() + 6
                && s[u5] == '\n' && s.subrange(u5, u5 + 5) == "\n    "@ && task_at(
                s,
                u5 + 5,
                v.tasks[0],
            ) && s.subrange(u5, u5 + tasks_json(v.tasks).len() as int) == tasks_json(v.tasks)
                && s.subrange(u5 + tasks_json(v.tasks).len() as int, s.len() as int)
                == "\n  ]\n}"@)
        }),
{
    reveal_strlit("{\n  \"version\": \"");
    reveal_strlit(",\n  \"next_id\": ");
    reveal_strlit(",\n  \"todos\": [");
    reveal_strlit("]\n}");
    reveal_strlit("\n  ]\n}");
    reveal_strlit("\n    ");
    reveal_strlit(",\n    ");
    let j = db_json(v);
    let a = "{\n  \"version\": \""@;
    let b = escape_str(v.version);
    let e = seq!['"'];
    let c = ",\n  \"next_id\": "@;
    let d = dec_str(v.next_id as int);
    let f = ",\n  \"todos\": ["@;
    let g = tasks_json(v.tasks);
    let z = if v.tasks.len() == 0 { "]\n}"@ } else { "\n  ]\n}"@ };
    let u1: int = 16;
    let u2 = u1 + b.len() as int;
    let u3 = u2 + 1 + 15;
    let u4 = u3 + d.len() as int;
    let u5 = u4 + 14;
    assert(a.len() == 16 && c.len() == 15 && f.len() == 14);
    assert((a + b).len() == 16 + b.len());
    assert((a + b + e).len() == u2 + 1);
    assert((a + b + e + c).len() == u3);
    assert((a + b + e + c + d).len() == u4);
    assert((a + b + e + c + d + f).len() == u5);
    assert((a + b + e + c + d + f + g).len() == u5 + g.len());
    let L = j.len() as int;
    assert(L == u5 + g.len() + z.len());
    assert forall|i: int| 0 <= i < L implies s[i] == #[trigger] j[i] by {}
    assert(j.subrange(0, u1) =~= a);
    assert(j.subrange(u1, u2) =~= b);
    assert(j[u2] == '"');
    assert(j.subrange(u2 + 1, u3) =~= c);
    assert(j.subrange(u3, u4) =~= d);
    assert(j.subrange(u4, u5) =~= f);
    assert(j.subrange(u5, u5 + g.len() as int) =~= g);
    assert(j.subrange(u5 + g.len() as int, L) =~= z);
    assert(s.subrange(0, u1) =~= a);
    assert(s.subrange(u1, u2) =~= b);
    assert(s[u2] == '"');
    assert(s.subrange(u2 + 1, u3) =~= c);
    assert(s.subrange(u3, u4) =~= d);
    assert(s.subrange(u4, u5) =~= f);
    assert(s.subrange(u5, u5 + g.len() as int) =~= g);
    assert(s.subrange(u5 + g.len() as int, L) =~= z);
    assert(s[u4] == s.subrange(u4, u5)[0]);
    assert(s[u4] == ',');
    lemma_dec_str_shape(v.next_id as int);
    if v.tasks.len() >= 1 {
        lemma_tasks_json_prefix(v.tasks, 1);
        assert(v.tasks.take(1).len() == 1);
        assert(v.tasks.take(1)[0] == v.tasks[0]);
        assert(tasks_json(v.tasks.take(1)) == "\n    "@ + task_json(v.tasks[0]));
        let lt = task_json(v.tasks[0]).len() as int;
        assert(g.subrange(0, 5 + lt) == "\n    "@ + task_json(v.tasks[0]));
        assert(s.subrange(u5, u5 + 5) =~= "\n    "@) by {
            assert forall|i: int| 0 <= i < 5 implies s.subrange(u5, u5 + 5)[i] == "\n    "@[i]
                by {
                assert(s.subrange(u5, u5 + g.len() as int)[i] == g[i]);
                assert(g.subrange(0, 5 + lt)[i] == ("\n    "@ + task_json(v.tasks[0]))[i]);
            }
        }
        assert(s[u5] == s.subrange(u5, u5 + 5)[0]);
        assert(s.subrange(u5 + 5, u5 + 5 + lt) =~= task_json(v.tasks[0])) by {
            assert forall|i: int| 0 <= i < lt implies s.subrange(u5 + 5, u5 + 5 + lt)[i]
                == task_json(v.tasks[0])[i] by {
                assert(s.subrange(u5, u5 + g.len() as int)[5 + i] == g[5 + i]);
                assert(g.subrange(0, 5 + lt)[5 + i] == ("\n    "@ + task_json(
                    v.tasks[0],
                ))[5 + i]);
            }
        }
        assert(!crate::value_objects::is_blank(v.tasks[0].title));
    } else {
        assert(v.tasks.len() == 0);
    }
}

/// In the canonical text of a well-formed database, after the header and
/// the first `k` records, the text continues with either the next
/// separator and record, or the closing of the list at the very end.
#[verifier::rlimit(100)]
proof fn lemma_db_window(s: Seq<char>, v: DbView, k: int, p5: int, p: int)
    requires
        s == db_json(v),
        db_wf(v),
        1 <= k <= v.tasks.len(),
        p5 == 16 + escape_str(v.version).len() + 1 + 15 + dec_str(v.next_id as int).len() + 14,
        p == p5 + tasks_json(v.tasks.take(k)).len(),
    ensures
        k < v.tasks.len() ==> s.subrange(p, p + 6) == ",\n    "@ && task_at(
            s,
            p + 6,
            v.tasks[k],
        ),
        k == v.tasks.len() ==> s.subrange(p, p + 6) == "\n  ]\n}"@ && p + 6 == s.len(),
{
    lemma_db_at_parts(s, v);
    let u5 = 16 + escape_str(v.version).len() as int + 1 + 15 + dec_str(
        v.next_id as int,
    ).len() as int + 14;
    let gfull = tasks_json(v.tasks);
    lemma_tasks_json_prefix(v.tasks, k);
    let lk = tasks_json(v.tasks.take(k)).len() as int;
    assert(p == u5 + lk);
    if k < v.tasks.len() {
        let lt = task_json(v.tasks[k]).len() as int;
        assert(gfull.subrange(lk, lk + 6 + lt) == ",\n    "@ + task_json(v.tasks[k]));
        assert(s.subrange(p, p + 6) =~= ",\n    "@) by {
            assert forall|i: int| 0 <= i < 6 implies s.subrange(p, p + 6)[i] == ",\n    "@[i]
                by {
                assert(s.subrange(u5, u5 + gfull.len() as int)[lk + i] == gfull[lk + i]);
                assert(gfull.subrange(lk, lk + 6 + lt)[i] == (",\n    "@ + task_json(
                    v.tasks[k],
                ))[i]);
            }
        }
        assert(s.subrange(p + 6, p + 6 + lt) =~= task_json(v.tasks[k])) by {
            assert forall|i: int| 0 <= i < lt implies s.subrange(p + 6, p + 6 + lt)[i]
                == task_json(v.tasks[k])[i] by {
                assert(s.subrange(u5, u5 + gfull.len() as int)[lk + 6 + i] == gfull[lk + 6
                    + i]);
                assert(gfull.subrange(lk, lk + 6 + lt)[6 + i] == (",\n    "@ + task_json(
                    v.tasks[k],
                ))[6 + i]);
            }
        }
        assert(!crate::value_objects::is_blank(v.tasks[k].title));
    } else {
        assert(v.tasks.take(k) =~= v.tasks);
        assert(s.subrange(p, p + 6) =~= "\n  ]\n}"@);
    }
}

/// Reads a whole database back from its file text.  It succeeds exactly
/// on the canonical text of a well-formed database: on success the input
/// is, character for character, the canonical text of what it returns,
/// and the canonical text of any well-formed database is accepted and
/// returns exactly that database.
#[verifier::loop_isolation(false)]
#[verifier::rlimit(100)]
pub fn parse_database(s: &str) -> (r: Result<crate::database::TodoDatabase, ParseError>)
    ensures
        r matches Ok(db) ==> s@ == db_json(db@),
        forall|v: DbView| s@ == #[trigger] db_json(v) && db_wf(v) ==> (r matches Ok(db)
            && db@ == v),
{
    let n = s.unicode_len();
    let p1 = match expect_lit(s, 0, "{\n  \"version\": \"") {
        Some(p) => p,
        None => {
            proof {
                assert forall|v: DbView| !(s@ == #[trigger] db_json(v) && db_wf(v)) by {
                    if s@ == db_json(v) && db_wf(v) {
                        lemma_db_at_parts(s@, v);
                    }
                }
            }
            return Err(ParseError::Malformed);
        },
    };
    let (version, p2) = match parse_string(s, p1) {
        Some(x) => x,
        None => {
            proof {
                assert forall|v: DbView| !(s@ == #[trigger] db_json(v) && db_wf(v)) by {
                    if s@ == db_json(v) && db_wf(v) {
                        lemma_db_at_parts(s@, v);
                    }
                }
            }
            return Err(ParseError::Malformed);
        },
    };
    let ghost version_view = version@;
    let p3 = match expect_lit(s, p2, ",\n  \"next_id\": ") {
        Some(p) => p,
        None => {
            proof {
                assert forall|v: DbView| !(s@ == #[trigger] db_json(v) && db_wf(v)) by {
                    if s@ == db_json(v) && db_wf(v) {
                        lemma_db_at_parts(s@, v);
                        assert(version_view == v.version);
                    }
                }
            }
            return Err(ParseError::Malformed);
        },
    };
    let (nid64, p4) = match parse_u64(s, p3) {
        Some(x) => x,
        None => {
            proof {
                assert forall|v: DbView| !(s@ == #[trigger] db_json(v) && db_wf(v)) by {
                    if s@ == db_json(v) && db_wf(v) {
                        lemma_db_at_parts(s@, v);
                        assert(version_view == v.version);
                    }
                }
            }
            return Err(ParseError::Malformed);
        },
    };
    if nid64 > 0xFFFF_FFFFu64 {
        proof {
            assert forall|v: DbView| !(s@ == #[trigger] db_json(v) && db_wf(v)) by {
                if s@ == db_json(v) && db_wf(v) {
                    lemma_db_at_parts(s@, v);
                    assert(nid64 == v.next_id as u64);
                }
            }
        }
        return Err(ParseError::Malformed);
    }
    let p5 = match expect_lit(s, p4, ",\n  \"todos\": [") {
        Some(p) => p,
        None => {
            proof {
                assert forall|v: DbView| !(s@ == #[trigger] db_json(v) && db_wf(v)) by {
                    if s@ == db_json(v) && db_wf(v) {
                        lemma_db_at_parts(s@, v);
                        assert(version_view == v.version && nid64 == v.next_id as u64);
                    }
                }
            }
            return Err(ParseError::Malformed);
        },
    };
    let ghost head = "{\n  \"version\": \""@ + escape_str(version@) + seq!['"']
        + ",\n  \"next_id\": "@ + dec_str(nid64 as int) + ",\n  \"todos\": ["@;
    proof {
        lemma_subrange_split(s@, 0, p1 as int, p2 as int);
        lemma_subrange_split(s@, 0, p2 as int, p3 as int);
        lemma_subrange_split(s@, 0, p3 as int, p4 as int);
        lemma_subrange_split(s@, 0, p4 as int, p5 as int);
        assert(s@.subrange(0, p5 as int) =~= head);
        assert forall|v: DbView| s@ == #[trigger] db_json(v) && db_wf(v) implies (version_view
            == v.version && nid64 == v.next_id as u64 && p5 as int == 16 + escape_str(
            v.version,
        ).len() + 1 + 15 + dec_str(v.next_id as int).len() + 14) by {
            lemma_db_at_parts(s@, v);
        }
    }
    let mut todos: Vec<Todo> = Vec::new();
    match expect_lit(s, p5, "]\n}") {
        Some(pe) => {
            if pe == n {
                let db = crate::database::TodoDatabase {
                    version,
                    next_id: nid64 as u32,
                    todos,
                };
                proof {
                    assert(crate::database::tasks_view(db.todos@) =~= Seq::<TaskView>::empty());
                    lemma_subrange_split(s@, 0, p5 as int, pe as int);
                    assert(s@.subrange(0, n as int) =~= s@);
                    assert(s@ =~= db_json(db@));
                    assert forall|v: DbView| s@ == #[trigger] db_json(v) && db_wf(v) implies db@
                        == v by {
                        lemma_db_at_parts(s@, v);
                        reveal_strlit("]\n}");
                        if v.tasks.len() >= 1 {
                            assert(s@[p5 as int] == s@.subrange(p5 as int, pe as int)[0]);
                            assert(s@[p5 as int] == ']');
                        }
                        assert(v.tasks =~= crate::database::tasks_view(db.todos@));
                    }
                }
                return Ok(db);
            } else {
                proof {
                    assert forall|v: DbView| !(s@ == #[trigger] db_json(v) && db_wf(v)) by {
                        if s@ == db_json(v) && db_wf(v) {
                            lemma_db_at_parts(s@, v);
                            reveal_strlit("]\n}");
                            if v.tasks.len() >= 1 {
                                assert(s@[p5 as int] == s@.subrange(p5 as int, pe as int)[0]);
                                assert(s@[p5 as int] == ']');
                            }
                            assert(pe as int == p5 + 3);
                            assert(s@.len() == p5 + 3);
                        }
                    }
                }
                return Err(ParseError::Malformed);
            }
        },
        None => {},
    }
    let pf = match expect_lit(s, p5, "\n    ") {
        Some(p) => p,
        None => {
            proof {
                assert forall|v: DbView| !(s@ == #[trigger] db_json(v) && db_wf(v)) by {
                    if s@ == db_json(v) && db_wf(v) {
                        lemma_db_at_parts(s@, v);
                    }
                }
            }
            return Err(ParseError::Malformed);
        },
    };
    let (t0, p6) = match parse_task(s, pf) {
        Some(x) => x,
        None => {
            proof {
                assert forall|v: DbView| !(s@ == #[trigger] db_json(v) && db_wf(v)) by {
                    if s@ == db_json(v) && db_wf(v) {
                        lemma_db_at_parts(s@, v);
                        assert(v.tasks.len() >= 1);
                        assert(task_at(s@, pf as int, v.tasks[0]));
                    }
                }
            }
            return Err(ParseError::Malformed);
        },
    };
    todos.push(t0);
    let mut p: usize = p6;
    proof {
        assert(crate::database::tasks_view(todos@) =~= seq![t0@]);
        lemma_subrange_split(s@, 0, p5 as int, pf as int);
        lemma_subrange_split(s@, 0, pf as int, p6 as int);
        assert(s@.subrange(0, p as int) =~= head + tasks_json(
            crate::database::tasks_view(todos@),
        ));
        assert forall|v: DbView| s@ == #[trigger] db_json(v) && db_wf(v) implies (todos@.len()
            <= v.tasks.len() && crate::database::tasks_view(todos@) == v.tasks.take(
            todos@.len() as int,
        )) by {
            lemma_db_at_parts(s@, v);
            assert(task_at(s@, pf as int, v.tasks[0]));
            assert(t0@ == v.tasks[0]);
            assert(crate::database::tasks_view(todos@) =~= v.tasks.take(1));
        }
    }
    loop
        invariant
            n == s@.len(),
            p <= n,
            todos.len() >= 1,
            nid64 <= 0xFFFF_FFFFu64,
            s@.subrange(0, p as int) == head + tasks_json(crate::database::tasks_view(todos@)),
            forall|v: DbView| s@ == #[trigger] db_json(v) && db_wf(v) ==> (todos@.len()
                <= v.tasks.len() && crate::database::tasks_view(todos@) == v.tasks.take(
                todos@.len() as int,
            )),
        decreases n - p,
    {
        let ghost k = todos@.len() as int;
        proof {
            assert forall|v: DbView| s@ == #[trigger] db_json(v) && db_wf(v) implies (p as int
                == p5 + tasks_json(v.tasks.take(k)).len() && (k < v.tasks.len() ==> s@.subrange(
                p as int,
                p + 6,
            ) == ",\n    "@ && task_at(s@, p + 6, v.tasks[k])) && (k == v.tasks.len()
                ==> s@.subrange(p as int, p + 6) == "\n  ]\n}"@ && p + 6 == s@.len())) by {
                lemma_db_window(s@, v, k, p5 as int, p as int);
            }
        }
        match expect_lit(s, p, ",\n    ") {
            Some(pc) => {
                proof {
                    assert forall|v: DbView| s@ == #[trigger] db_json(v) && db_wf(v) implies (k
                        < v.tasks.len() && task_at(s@, pc as int, v.tasks[k])) by {
                        if k == v.tasks.len() {
                            reveal_strlit(",\n    ");
                            reveal_strlit("\n  ]\n}");
                            assert(s@.subrange(p as int, pc as int)[0] == ',');
                            assert(s@.subrange(p as int, p + 6)[0] == '\n');
                            assert(s@[p as int] == ',' && s@[p as int] == '\n');
                        }
                    }
                }
                match parse_task(s, pc) {
                    Some((t, pt)) => {
                        let ghost tv0 = crate::database::tasks_view(todos@);
                        todos.push(t);
                        proof {
                            assert(crate::database::tasks_view(todos@) =~= tv0.push(t@));
                            lemma_tasks_json_push(tv0, t@);
                            lemma_subrange_split(s@, 0, p as int, pc as int);
                            lemma_subrange_split(s@, 0, pc as int, pt as int);
                            assert(s@.subrange(0, pt as int) =~= head + tasks_json(
                                crate::database::tasks_view(todos@),
                            ));
                            assert forall|v: DbView| s@ == #[trigger] db_json(v) && db_wf(v)
                                implies (todos@.len() <= v.tasks.len()
                                && crate::database::tasks_view(todos@) == v.tasks.take(
                                todos@.len() as int,
                            )) by {
                                assert(t@ == v.tasks[k]);
                                assert(tv0.push(t@) =~= v.tasks.take(k + 1));
                            }
                        }
                        p = pt;
                    },
                    None => {
                        proof {
                            assert forall|v: DbView| !(s@ == #[trigger] db_json(v) && db_wf(
                                v,
                            )) by {
                                if s@ == db_json(v) && db_wf(v) {
                                    assert(task_at(s@, pc as int, v.tasks[k]));
                                }
                            }
                        }
                        return Err(ParseError::Malformed);
                    },
                }
            },
            None => {
                proof {
                    assert forall|v: DbView| s@ == #[trigger] db_json(v) && db_wf(v) implies k
                        == v.tasks.len() by {
                        if k < v.tasks.len() {
                            assert(s@.subrange(p as int, p + 6) == ",\n    "@);
                        }
                    }
                }
                match expect_lit(s, p, "\n  ]\n}") {
                    Some(pe) => {
                        if pe == n {
                            let db = crate::database::TodoDatabase {
                                version,
                                next_id: nid64 as u32,
                                todos,
                            };
                            proof {
                                lemma_subrange_split(s@, 0, p as int, pe as int);
                                assert(s@.subrange(0, n as int) =~= s@);
                                assert(s@ =~= db_json(db@));
                                assert forall|v: DbView| s@ == #[trigger] db_json(v) && db_wf(
                                    v,
                                ) implies db@ == v by {
                                    assert(crate::database::tasks_view(db.todos@)
                                        =~= v.tasks);
                                }
                            }
                            return Ok(db);
                        } else {
                            proof {
                                assert forall|v: DbView| !(s@ == #[trigger] db_json(v)
                                    && db_wf(v)) by {
                                    if s@ == db_json(v) && db_wf(v) {
                                        assert(p + 6 == s@.len());
                                        assert(pe as int == p + 6);
                                    }
                                }
                            }
                            return Err(ParseError::Malformed);
                        }
                    },
                    None => {
                        proof {
                            assert forall|v: DbView| !(s@ == #[trigger] db_json(v) && db_wf(
                                v,
                            )) by {
                                if s@ == db_json(v) && db_wf(v) {
                                    assert(s@.subrange(p as int, p + 6) == "\n  ]\n}"@);
                                }
                            }
                        }
                        return Err(ParseError::Malformed);
                    },
                }
            },
        }
    }
}

/// The canonical decimal text of `n`, as an owned string.
pub fn render_u32(n: u32) -> (r: String)
    ensures
        r@ == dec_str(n as int),
{
    let mut out = String::new();
    push_dec_u64(&mut out, n as u64);
    proof {
        assert(Seq::<char>::empty() + dec_str(n as int) =~= dec_str(n as int));
    }
    out
}

} // verus!
