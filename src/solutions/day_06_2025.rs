use crate::parse::{digits_value, is_digit, lead_digits, number_at, number_in, skip_nondigits};
use crate::solution::{decimal, decimal_string, InputError};
use crate::text::{lines_of, split_lines};
use vstd::prelude::*;
use vstd::string::StringSliceAdditionalSpecFns;
use vstd::utf8::encode_utf8;

verus! {

pub open spec fn is_ascii_space(c: u8) -> bool {
    c == 32 || c == 9 || c == 10 || c == 12 || c == 13
}

/// The rows of numbers of the worksheet: every line but the last.
pub open spec fn number_rows(b: Seq<u8>) -> Seq<Seq<u8>> {
    lines_of(b, 10).drop_last()
}

/// The last line of the worksheet, which holds the operators.
pub open spec fn operator_row(b: Seq<u8>) -> Seq<u8> {
    lines_of(b, 10).last()
}

/// An operator stands at column `j`.
pub open spec fn is_op_at(b: Seq<u8>, j: int) -> bool {
    0 <= j < operator_row(b).len() && !is_ascii_space(operator_row(b)[j])
}

/// Every operator is `+` or `*`, and no row of numbers ends before its column.
pub open spec fn sheet_ok(b: Seq<u8>) -> bool {
    forall|j: int|
        #[trigger] is_op_at(b, j) ==> (operator_row(b)[j] == 43 || operator_row(b)[j] == 42)
            && forall|i: int| 0 <= i < number_rows(b).len() ==> j <= (#[trigger] number_rows(b)[i]).len()
}

/// The operand in column `j` of the row.
pub open spec fn operand(row: Seq<u8>, j: int) -> nat {
    number_in(row.skip(j))
}

/// Sum of the operands of column `j` in the first `n` rows.
pub open spec fn column_sum(rows: Seq<Seq<u8>>, j: int, n: int) -> nat
    decreases n,
{
    if n <= 0 {
        0
    } else {
        column_sum(rows, j, n - 1) + operand(rows[n - 1], j)
    }
}

/// Product of the operands of column `j` in the first `n` rows.
pub open spec fn column_product(rows: Seq<Seq<u8>>, j: int, n: int) -> nat
    decreases n,
{
    if n <= 0 {
        1
    } else {
        column_product(rows, j, n - 1) * operand(rows[n - 1], j)
    }
}

/// The answer of the problem whose operator stands at column `j`.
pub open spec fn column_value(b: Seq<u8>, j: int) -> nat {
    let rows = number_rows(b);
    if operator_row(b)[j] == 43 {
        column_sum(rows, j, rows.len() as int)
    } else {
        column_product(rows, j, rows.len() as int)
    }
}

/// Sum of the answers of the problems whose operators stand before column `n`.
pub open spec fn sheet_total(b: Seq<u8>, n: int) -> nat
    decreases n,
{
    if n <= 0 {
        0
    } else {
        sheet_total(b, n - 1) + if is_op_at(b, n - 1) {
            column_value(b, n - 1)
        } else {
            0
        }
    }
}

/// Every operand and every answer, and their sum, fit in a `u64`.
pub open spec fn sheet_fits(b: Seq<u8>) -> bool {
    &&& forall|j: int, i: int|
        #![trigger is_op_at(b, j), number_rows(b)[i]]
        is_op_at(b, j) && 0 <= i < number_rows(b).len() ==> operand(number_rows(b)[i], j)
            <= u64::MAX
    &&& forall|j: int| #[trigger] is_op_at(b, j) ==> column_value(b, j) <= u64::MAX
    &&& sheet_total(b, operator_row(b).len() as int) <= u64::MAX
}

proof fn lemma_sum_grows(rows: Seq<Seq<u8>>, j: int, n: int, m: int)
    requires
        0 <= n <= m,
    ensures
        column_sum(rows, j, n) <= column_sum(rows, j, m),
    decreases m - n,
{
    if n < m {
        lemma_sum_grows(rows, j, n, m - 1);
    }
}

proof fn lemma_product_pos(rows: Seq<Seq<u8>>, j: int, n: int)
    requires
        n <= rows.len(),
        forall|i: int| 0 <= i < rows.len() ==> operand(#[trigger] rows[i], j) >= 1,
    ensures
        column_product(rows, j, n) >= 1,
    decreases n,
{
    if n > 0 {
        lemma_product_pos(rows, j, n - 1);
        let p = column_product(rows, j, n - 1);
        let x = operand(rows[n - 1], j);
        assert(p * x >= 1) by (nonlinear_arith)
            requires
                x >= 1,
                p >= 1,
        ;
    }
}

proof fn lemma_product_grows(rows: Seq<Seq<u8>>, j: int, n: int, m: int)
    requires
        0 <= n <= m <= rows.len(),
        forall|i: int| 0 <= i < rows.len() ==> operand(#[trigger] rows[i], j) >= 1,
    ensures
        column_product(rows, j, n) <= column_product(rows, j, m),
    decreases m - n,
{
    if n < m {
        lemma_product_grows(rows, j, n, m - 1);
        lemma_product_pos(rows, j, m - 1);
        let p = column_product(rows, j, m - 1);
        let x = operand(rows[m - 1], j);
        assert(p <= p * x) by (nonlinear_arith)
            requires
                x >= 1,
                p >= 1,
        ;
    }
}

proof fn lemma_product_zero(rows: Seq<Seq<u8>>, j: int, n: int, z: int)
    requires
        0 <= z < n <= rows.len(),
        operand(rows[z], j) == 0,
    ensures
        column_product(rows, j, n) == 0,
    decreases n,
{
    let p = column_product(rows, j, n - 1);
    let x = operand(rows[n - 1], j);
    assert(column_product(rows, j, n) == p * x);
    if z < n - 1 {
        lemma_product_zero(rows, j, n - 1, z);
        assert(p * x == 0) by (nonlinear_arith)
            requires
                p == 0,
        ;
    } else {
        assert(p * x == 0) by (nonlinear_arith)
            requires
                x == 0,
        ;
    }
}

proof fn lemma_total_grows(b: Seq<u8>, n: int, m: int)
    requires
        0 <= n <= m,
    ensures
        sheet_total(b, n) <= sheet_total(b, m),
    decreases m - n,
{
    if n < m {
        lemma_total_grows(b, n, m - 1);
    }
}

/// The answer of the problem at column `j`: `None` where an operand or the answer does not
/// fit in a `u64`.
fn solve_column(rows: &Vec<Vec<u8>>, j: usize, add: bool) -> (r: Option<u64>)
    requires
        forall|i: int| 0 <= i < rows@.len() ==> j <= (#[trigger] rows@[i])@.len(),
    ensures
        ({
            let rs = rows.deep_view();
            let exact = if add {
                column_sum(rs, j as int, rs.len() as int)
            } else {
                column_product(rs, j as int, rs.len() as int)
            };
            let fits = (forall|i: int|
                0 <= i < rs.len() ==> operand(#[trigger] rs[i], j as int) <= u64::MAX) && exact
                <= u64::MAX;
            &&& r is Some <==> fits
            &&& r matches Some(v) ==> v == exact
        }),
{
    let ghost rs = rows.deep_view();
    assert forall|i: int| 0 <= i < rows@.len() implies #[trigger] rs[i] == rows@[i]@ by {
        assert(rs[i] =~= rows@[i]@);
    }
    let mut ops: Vec<u64> = Vec::new();
    let mut has_zero = false;
    let mut i: usize = 0;
    while i < rows.len()
        invariant
            rs == rows.deep_view(),
            forall|k: int| 0 <= k < rows@.len() ==> #[trigger] rs[k] == rows@[k]@,
            forall|k: int| 0 <= k < rows@.len() ==> j <= (#[trigger] rows@[k])@.len(),
            i <= rows@.len(),
            ops@.len() == i,
            forall|k: int| 0 <= k < i ==> #[trigger] ops@[k] == operand(rs[k], j as int),
            forall|k: int| 0 <= k < i ==> operand(#[trigger] rs[k], j as int) <= u64::MAX,
            has_zero <==> exists|k: int| 0 <= k < i && operand(#[trigger] rs[k], j as int) == 0,
        decreases rows@.len() - i,
    {
        match number_at(rows[i].as_slice(), j) {
            Some(v) => {
                if v == 0 {
                    has_zero = true;
                }
                ops.push(v);
            },
            None => {
                assert(operand(rs[i as int], j as int) > u64::MAX);
                return None;
            },
        }
        i += 1;
    }
    let ghost n = rs.len() as int;
    if !add && has_zero {
        proof {
            let z = choose|k: int| 0 <= k < n && operand(#[trigger] rs[k], j as int) == 0;
            lemma_product_zero(rs, j as int, n, z);
        }
        return Some(0);
    }
    assert(forall|q: int| 0 <= q < n ==> operand(#[trigger] rs[q], j as int) <= u64::MAX);
    assert(!add ==> forall|q: int| 0 <= q < n ==> operand(#[trigger] rs[q], j as int) >= 1);
    let mut acc: u64 = if add {
        0
    } else {
        1
    };
    let mut k: usize = 0;
    while k < ops.len()
        invariant
            rs == rows.deep_view(),
            ops@.len() == n,
            n == rs.len(),
            forall|q: int| 0 <= q < n ==> #[trigger] ops@[q] == operand(rs[q], j as int),
            !add ==> forall|q: int| 0 <= q < n ==> operand(#[trigger] rs[q], j as int) >= 1,
            forall|q: int| 0 <= q < n ==> operand(#[trigger] rs[q], j as int) <= u64::MAX,
            k <= n,
            acc == if add {
                column_sum(rs, j as int, k as int)
            } else {
                column_product(rs, j as int, k as int)
            },
        decreases n - k,
    {
        let x = ops[k];
        if add {
            if acc > u64::MAX - x {
                proof {
                    lemma_sum_grows(rs, j as int, k + 1, n);
                }
                return None;
            }
            acc = acc + x;
        } else {
            match acc.checked_mul(x) {
                Some(y) => acc = y,
                None => {
                    proof {
                        lemma_product_grows(rs, j as int, k + 1, n);
                    }
                    return None;
                },
            }
        }
        k += 1;
    }
    Some(acc)
}

/// Sum of the answers of the problems, each read down its operator's column.
pub fn part1(input: String) -> (r: Result<String, InputError>)
    ensures
        ({
            let b = encode_utf8(input@);
            &&& r is Ok <==> sheet_ok(b) && sheet_fits(b)
            &&& r matches Ok(s) ==> s@ == decimal(sheet_total(b, operator_row(b).len() as int))
            &&& r matches Err(e) ==> e == if sheet_ok(b) {
                InputError::TooLarge
            } else {
                InputError::Malformed
            }
        }),
{
    let ghost b = encode_utf8(input@);
    let mut lines = split_lines(input.as_str().as_bytes(), 10);
    proof {
        crate::text::lemma_lines_nonempty(b, 10);
    }
    let ops = lines.pop().unwrap();
    let ghost rs = number_rows(b);
    assert(lines.deep_view() =~= rs);
    assert(ops@ =~= operator_row(b));
    let mut j: usize = 0;
    while j < ops.len()
        invariant
            b == encode_utf8(input@),
            lines.deep_view() == number_rows(b),
            ops@ == operator_row(b),
            j <= ops@.len(),
            forall|q: int|
                0 <= q < j && #[trigger] is_op_at(b, q) ==> (operator_row(b)[q] == 43
                    || operator_row(b)[q] == 42) && forall|i: int|
                    0 <= i < number_rows(b).len() ==> q <= (#[trigger] number_rows(b)[i]).len(),
        decreases ops@.len() - j,
    {
        let c = ops[j];
        if !(c == 32 || c == 9 || c == 10 || c == 12 || c == 13) {
            if c != 43 && c != 42 {
                assert(is_op_at(b, j as int));
                return Err(InputError::Malformed);
            }
            assert(is_op_at(b, j as int));
            let mut i: usize = 0;
            while i < lines.len()
                invariant
                    b == encode_utf8(input@),
                    ops@ == operator_row(b),
                    is_op_at(b, j as int),
                    lines.deep_view() == number_rows(b),
                    j < ops@.len(),
                    i <= lines@.len(),
                    forall|k: int| 0 <= k < i ==> j <= (#[trigger] number_rows(b)[k]).len(),
                decreases lines@.len() - i,
            {
                assert(lines.deep_view()[i as int] =~= lines@[i as int]@);
                if lines[i].len() < j {
                    assert(is_op_at(b, j as int));
                    assert(number_rows(b)[i as int].len() < j);
                    assert(!sheet_ok(b));
                    return Err(InputError::Malformed);
                }
                i += 1;
            }
        }
        j += 1;
    }
    let mut total: u64 = 0;
    let mut j: usize = 0;
    while j < ops.len()
        invariant
            b == encode_utf8(input@),
            sheet_ok(b),
            lines.deep_view() == number_rows(b),
            ops@ == operator_row(b),
            j <= ops@.len(),
            total == sheet_total(b, j as int),
            forall|q: int|
                0 <= q < j && #[trigger] is_op_at(b, q) ==> column_value(b, q) <= u64::MAX && forall|
                    i: int,
                | 0 <= i < number_rows(b).len() ==> operand(#[trigger] number_rows(b)[i], q)
                    <= u64::MAX,
        decreases ops@.len() - j,
    {
        let c = ops[j];
        if !(c == 32 || c == 9 || c == 10 || c == 12 || c == 13) {
            assert(is_op_at(b, j as int));
            assert forall|i: int| 0 <= i < lines@.len() implies j <= (#[trigger] lines@[i])@.len() by {
                assert(lines.deep_view()[i] =~= lines@[i]@);
            }
            match solve_column(&lines, j, c == 43) {
                Some(v) => {
                    if total > u64::MAX - v {
                        proof {
                            lemma_total_grows(b, j + 1, operator_row(b).len() as int);
                        }
                        return Err(InputError::TooLarge);
                    }
                    total = total + v;
                },
                None => {
                    return Err(InputError::TooLarge);
                },
            }
        }
        j += 1;
    }
    Ok(decimal_string(total))
}

/// The operators of the last line, read from right to left.
pub open spec fn ops_from_right(row: Seq<u8>) -> Seq<u8>
    decreases row.len(),
{
    if row.len() == 0 {
        Seq::empty()
    } else {
        (if is_ascii_space(row.last()) {
            Seq::empty()
        } else {
            seq![row.last()]
        }) + ops_from_right(row.drop_last())
    }
}

/// Column `j` counted from the right, read top to bottom; a row too short for it gives a
/// zero byte.
pub open spec fn column_from_right(rows: Seq<Seq<u8>>, j: int) -> Seq<u8> {
    Seq::new(
        rows.len(),
        |i: int|
            if j < rows[i].len() {
                rows[i][rows[i].len() - 1 - j]
            } else {
                0u8
            },
    )
}

pub open spec fn apply(op: u8, acc: nat, v: nat) -> nat {
    if op == 43 {
        acc + v
    } else {
        acc * v
    }
}

/// Reads the numbers of the columns from `s` on into `acc` with `op`, up to the first
/// column without a number, which it skips; returns the result and the next column.
pub open spec fn group(rows: Seq<Seq<u8>>, w: int, s: int, op: u8, acc: nat) -> (nat, int)
    decreases w - s,
{
    if s >= w {
        (acc, s)
    } else {
        let v = number_in(column_from_right(rows, s));
        if v == 0 {
            (acc, s + 1)
        } else {
            group(rows, w, s + 1, op, apply(op, acc, v))
        }
    }
}

/// The sum of the answers of the first `k` problems read right to left, and the column after
/// the last one read.
pub open spec fn cephalopod_totals(rows: Seq<Seq<u8>>, ops: Seq<u8>, k: int) -> (nat, int)
    decreases k,
{
    if k <= 0 {
        (0, 0)
    } else {
        let (t, st) = cephalopod_totals(rows, ops, k - 1);
        let op = ops[k - 1];
        let (a, e) = group(rows, rows[0].len() as int, st, op, if op == 43 { 0 } else { 1 });
        (t + a, e)
    }
}

/// The worksheet has a row of numbers, no row longer than the first, and only `+` and `*`
/// as operators.
pub open spec fn sheet2_ok(b: Seq<u8>) -> bool {
    let rows = number_rows(b);
    let ops = ops_from_right(operator_row(b));
    &&& rows.len() > 0
    &&& forall|i: int| 0 <= i < rows.len() ==> (#[trigger] rows[i]).len() <= rows[0].len()
    &&& forall|k: int| 0 <= k < ops.len() ==> (#[trigger] ops[k] == 43 || ops[k] == 42)
}

/// The grand total of the worksheet read right to left in columns.
pub open spec fn cephalopod_total(b: Seq<u8>) -> nat {
    let ops = ops_from_right(operator_row(b));
    cephalopod_totals(number_rows(b), ops, ops.len() as int).0
}

proof fn lemma_group_grows(rows: Seq<Seq<u8>>, w: int, s: int, op: u8, acc: nat)
    requires
        op == 43 || acc >= 1,
    ensures
        group(rows, w, s, op, acc).0 >= acc,
        s < w ==> group(rows, w, s, op, acc).1 > s,
    decreases w - s,
{
    if s < w {
        let v = number_in(column_from_right(rows, s));
        if v != 0 {
            assert(apply(op, acc, v) >= acc) by (nonlinear_arith)
                requires
                    op == 43 || acc >= 1,
                    v >= 1,
                    apply(op, acc, v) == if op == 43 { acc + v } else { acc * v },
            ;
            assert(op == 43 || apply(op, acc, v) >= 1) by (nonlinear_arith)
                requires
                    op == 43 || acc >= 1,
                    v >= 1,
                    apply(op, acc, v) == if op == 43 { acc + v } else { acc * v },
            ;
            lemma_group_grows(rows, w, s + 1, op, apply(op, acc, v));
        }
    }
}

proof fn lemma_totals_grow(rows: Seq<Seq<u8>>, ops: Seq<u8>, k: int, m: int)
    requires
        0 <= k <= m,
    ensures
        cephalopod_totals(rows, ops, k).0 <= cephalopod_totals(rows, ops, m).0,
    decreases m - k,
{
    if k < m {
        lemma_totals_grow(rows, ops, k, m - 1);
    }
}

/// The operators of `row`, read from right to left.
fn operators_from_right(row: &Vec<u8>) -> (ops: Vec<u8>)
    ensures
        ops@ == ops_from_right(row@),
{
    let mut ops: Vec<u8> = Vec::new();
    let mut i: usize = row.len();
    assert(row@.take(row@.len() as int) =~= row@);
    assert(ops@ + ops_from_right(row@) =~= ops_from_right(row@));
    while i > 0
        invariant
            i <= row@.len(),
            ops@ + ops_from_right(row@.take(i as int)) == ops_from_right(row@),
        decreases i,
    {
        let c = row[i - 1];
        assert(row@.take(i as int).drop_last() =~= row@.take(i - 1));
        if !(c == 32 || c == 9 || c == 10 || c == 12 || c == 13) {
            assert(ops@.push(c) + ops_from_right(row@.take(i - 1)) =~= ops@ + ops_from_right(
                row@.take(i as int),
            ));
            ops.push(c);
        } else {
            assert(ops@ + ops_from_right(row@.take(i - 1)) =~= ops@ + ops_from_right(
                row@.take(i as int),
            ));
        }
        i -= 1;
    }
    assert(row@.take(row@.len() as int) =~= row@);
    assert(ops@ + ops_from_right(row@.take(0)) =~= ops@);
    ops
}

/// Sum of the answers of the problems, read right to left with one number per column.
pub fn part2(input: String) -> (r: Result<String, InputError>)
    ensures
        ({
            let b = encode_utf8(input@);
            &&& r is Ok <==> sheet2_ok(b) && cephalopod_total(b) <= u64::MAX
            &&& r matches Ok(s) ==> s@ == decimal(cephalopod_total(b))
            &&& r matches Err(e) ==> e == if sheet2_ok(b) {
                InputError::TooLarge
            } else {
                InputError::Malformed
            }
        }),
{
    let ghost b = encode_utf8(input@);
    let mut lines = split_lines(input.as_str().as_bytes(), 10);
    proof {
        crate::text::lemma_lines_nonempty(b, 10);
    }
    let last = lines.pop().unwrap();
    let ghost rows = number_rows(b);
    assert(lines.deep_view() =~= rows);
    assert(last@ =~= operator_row(b));
    let ops = operators_from_right(&last);
    assert forall|i: int| 0 <= i < lines@.len() implies #[trigger] lines@[i]@ == rows[i] by {
        assert(lines.deep_view()[i] =~= lines@[i]@);
    }
    if lines.len() == 0 {
        return Err(InputError::Malformed);
    }
    let w = lines[0].len();
    let mut i: usize = 0;
    while i < lines.len()
        invariant
            b == encode_utf8(input@),
            rows == number_rows(b),
            lines@.len() == rows.len() > 0,
            forall|q: int| 0 <= q < lines@.len() ==> #[trigger] lines@[q]@ == rows[q],
            w == rows[0].len(),
            i <= lines@.len(),
            forall|q: int| 0 <= q < i ==> (#[trigger] rows[q]).len() <= w,
        decreases lines@.len() - i,
    {
        if lines[i].len() > w {
            assert(rows[i as int].len() > rows[0].len());
            assert(!sheet2_ok(b));
            return Err(InputError::Malformed);
        }
        i += 1;
    }
    let mut k: usize = 0;
    while k < ops.len()
        invariant
            b == encode_utf8(input@),
            ops@ == ops_from_right(operator_row(b)),
            k <= ops@.len(),
            forall|q: int| 0 <= q < k ==> (#[trigger] ops@[q] == 43 || ops@[q] == 42),
        decreases ops@.len() - k,
    {
        if ops[k] != 43 && ops[k] != 42 {
            assert(!(ops@[k as int] == 43 || ops@[k as int] == 42));
            assert(!sheet2_ok(b));
            return Err(InputError::Malformed);
        }
        k += 1;
    }
    assert(sheet2_ok(b));
    let mut cols: Vec<Vec<u8>> = Vec::new();
    let mut j: usize = 0;
    while j < w
        invariant
            lines@.len() == rows.len(),
            forall|q: int| 0 <= q < lines@.len() ==> #[trigger] lines@[q]@ == rows[q],
            j <= w,
            cols@.len() == j,
            forall|q: int| 0 <= q < j ==> #[trigger] cols@[q]@ == column_from_right(rows, q),
        decreases w - j,
    {
        let mut col: Vec<u8> = Vec::new();
        let mut i: usize = 0;
        while i < lines.len()
            invariant
                lines@.len() == rows.len(),
                forall|q: int| 0 <= q < lines@.len() ==> #[trigger] lines@[q]@ == rows[q],
                i <= lines@.len(),
                col@ =~= column_from_right(rows, j as int).take(i as int),
            decreases lines@.len() - i,
        {
            let line = &lines[i];
            let len = line.len();
            if j < len {
                col.push(line[len - 1 - j]);
            } else {
                col.push(0);
            }
            i += 1;
        }
        assert(col@ =~= column_from_right(rows, j as int));
        cols.push(col);
        j += 1;
    }
    let mut total: u64 = 0;
    let mut start: usize = 0;
    let mut k: usize = 0;
    while k < ops.len()
        invariant
            b == encode_utf8(input@),
            rows == number_rows(b),
            ops@ == ops_from_right(operator_row(b)),
            sheet2_ok(b),
            w == rows[0].len(),
            cols@.len() == w,
            forall|q: int| 0 <= q < w ==> #[trigger] cols@[q]@ == column_from_right(rows, q),
            k <= ops@.len(),
            (total as nat, start as int) == cephalopod_totals(rows, ops@, k as int),
            start <= w,
        decreases ops@.len() - k,
    {
        let op = ops[k];
        let ghost init: nat = if op == 43 { 0 } else { 1 };
        let mut acc: u64 = if op == 43 {
            0
        } else {
            1
        };
        let ghost k_total = cephalopod_totals(rows, ops@, k + 1);
        assert(k_total.0 == total + group(rows, w as int, start as int, op, init).0);
        assert(k_total.1 == group(rows, w as int, start as int, op, init).1);
        let ghost old_start = start;
        loop
            invariant_except_break
                group(rows, w as int, start as int, op, acc as nat) == group(
                    rows,
                    w as int,
                    old_start as int,
                    op,
                    init,
                ),
            invariant
                b == encode_utf8(input@),
                rows == number_rows(b),
                ops@ == ops_from_right(operator_row(b)),
                sheet2_ok(b),
                k < ops@.len(),
                (total as nat, old_start as int) == cephalopod_totals(rows, ops@, k as int),
                cephalopod_totals(rows, ops@, k + 1).0 == total + group(
                    rows,
                    w as int,
                    old_start as int,
                    op,
                    init,
                ).0,
                cephalopod_totals(rows, ops@, k + 1).1 == group(
                    rows,
                    w as int,
                    old_start as int,
                    op,
                    init,
                ).1,
                op == ops@[k as int],
                init == if op == 43 { 0nat } else { 1nat },
                w == rows[0].len(),
                cols@.len() == w,
                forall|q: int| 0 <= q < w ==> #[trigger] cols@[q]@ == column_from_right(rows, q),
                start <= w,
                op == 43 || op == 42,
                op == 43 || acc >= 1,
            ensures
                (acc as nat, start as int) == group(rows, w as int, old_start as int, op, init),
                start <= w,
            decreases w - start,
        {
            if start >= w {
                break;
            }
            let v = number_at(cols[start].as_slice(), 0);
            assert(cols@[start as int]@.skip(0) =~= column_from_right(rows, start as int));
            let v = match v {
                Some(v) => v,
                None => {
                    proof {
                        let n = number_in(column_from_right(rows, start as int));
                        assert(op == 43 || apply(op, acc as nat, n) >= 1) by (nonlinear_arith)
                            requires
                                op == 43 || acc >= 1,
                                n >= 1,
                                apply(op, acc as nat, n) == if op == 43 { acc + n } else { acc * n },
                        ;
                        lemma_group_grows(rows, w as int, start + 1, op, apply(op, acc as nat, n));
                        assert(apply(op, acc as nat, n) >= n) by (nonlinear_arith)
                            requires
                                op == 43 || acc >= 1,
                                apply(op, acc as nat, n) == if op == 43 { acc + n } else { acc * n },
                        ;
                        lemma_totals_grow(rows, ops@, k + 1, ops@.len() as int);
                    }
                    return Err(InputError::TooLarge);
                },
            };
            start += 1;
            if v == 0 {
                break;
            }
            let next = if op == 43 {
                acc.checked_add(v)
            } else {
                acc.checked_mul(v)
            };
            match next {
                Some(x) => {
                    proof {
                        assert(v >= 1 && (op == 43 || acc >= 1));
                        assert(op == 43 || x >= 1) by (nonlinear_arith)
                            requires
                                v >= 1,
                                op == 43 || acc >= 1,
                                op == 43 || x == acc * v,
                        ;
                    }
                    acc = x;
                },
                None => {
                    proof {
                        lemma_group_grows(rows, w as int, start as int, op, apply(op, acc as nat, v as nat));
                        lemma_totals_grow(rows, ops@, k + 1, ops@.len() as int);
                    }
                    return Err(InputError::TooLarge);
                },
            }
        }
        if total > u64::MAX - acc {
            proof {
                lemma_totals_grow(rows, ops@, k + 1, ops@.len() as int);
            }
            return Err(InputError::TooLarge);
        }
        total = total + acc;
        k += 1;
    }
    Ok(decimal_string(total))
}

} // verus!
