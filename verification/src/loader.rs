use vstd::prelude::*;

use crate::Error;
use crate::matrix::Matrix;
use crate::table::Table;
use crate::table::seq_sum;
use vstd::string::StrSliceExecFns;

verus! {

/// Blank characters inside a line (space, tab, carriage return, by code
/// point); the line itself ends at a newline.
pub open spec fn is_blank(c: char) -> bool {
    c as u32 == 32 || c as u32 == 9 || c as u32 == 13
}

/// A decimal digit, by code point.
pub open spec fn is_digit(c: char) -> bool {
    48 <= c as u32 && c as u32 <= 57
}

/// The numeric value of a digit.
pub open spec fn digit_value(c: char) -> int {
    c as u32 - 48
}

/// The first position at or after `i` that does not hold a blank.
pub open spec fn spec_skip_blanks(s: Seq<char>, i: int) -> int
    decreases s.len() - i,
{
    if 0 <= i < s.len() && is_blank(s[i]) {
        spec_skip_blanks(s, i + 1)
    } else {
        i
    }
}

/// Accumulate decimal digits from position `i` into `acc`, negatively for
/// a negated number; a value that leaves the scalar range is malformed.
pub open spec fn spec_digits_value(s: Seq<char>, i: int, acc: int, neg: bool) -> Result<
    (i64, int),
    Error,
>
    decreases s.len() - i,
{
    if 0 <= i < s.len() && is_digit(s[i]) {
        let acc2 = if neg {
            acc * 10 - digit_value(s[i])
        } else {
            acc * 10 + digit_value(s[i])
        };
        if acc2 < i64::MIN || acc2 > i64::MAX {
            Err(Error::MalformedInput)
        } else {
            spec_digits_value(s, i + 1, acc2, neg)
        }
    } else {
        Ok((acc as i64, i))
    }
}

/// One number token at position `i`: an optional minus sign followed by at
/// least one digit.
pub open spec fn spec_number(s: Seq<char>, i: int) -> Result<(i64, int), Error> {
    if 0 <= i < s.len() && s[i] as u32 == 45 {
        if i + 1 < s.len() && is_digit(s[i + 1]) {
            spec_digits_value(s, i + 1, 0, true)
        } else {
            Err(Error::MalformedInput)
        }
    } else if 0 <= i < s.len() && is_digit(s[i]) {
        spec_digits_value(s, i, 0, false)
    } else {
        Err(Error::MalformedInput)
    }
}

/// `count` blank-separated numbers from position `i`.
pub open spec fn spec_numbers(s: Seq<char>, i: int, count: int) -> Result<(Seq<i64>, int), Error>
    decreases count,
{
    if count <= 0 {
        Ok((Seq::empty(), i))
    } else {
        match spec_number(s, spec_skip_blanks(s, i)) {
            Err(e) => Err(e),
            Ok(vj) => match spec_numbers(s, vj.1, count - 1) {
                Err(e) => Err(e),
                Ok(rest) => Ok((seq![vj.0] + rest.0, rest.1)),
            },
        }
    }
}

/// The end of a line at position `i`: blanks, then a newline or the end of
/// the text; anything else is trailing content.
pub open spec fn spec_line_end(s: Seq<char>, i: int) -> Result<int, Error> {
    let j = spec_skip_blanks(s, i);
    if j >= s.len() {
        Ok(s.len() as int)
    } else if s[j] as u32 == 10 {
        Ok(j + 1)
    } else {
        Err(Error::InvalidTrailingData)
    }
}

/// The `n` cost-and-supply lines: each holds `m` costs and one supply.
pub open spec fn spec_body_rows(s: Seq<char>, i: int, n: int, m: int) -> Result<
    (Seq<Seq<i64>>, Seq<i64>, int),
    Error,
>
    decreases n,
{
    if n <= 0 {
        Ok((Seq::empty(), Seq::empty(), i))
    } else {
        match spec_numbers(s, i, m) {
            Err(e) => Err(e),
            Ok(row) => match spec_number(s, spec_skip_blanks(s, row.1)) {
                Err(e) => Err(e),
                Ok(sup) => match spec_line_end(s, sup.1) {
                    Err(e) => Err(e),
                    Ok(j) => match spec_body_rows(s, j, n - 1, m) {
                        Err(e) => Err(e),
                        Ok(rest) => Ok(
                            (seq![row.0] + rest.0, seq![sup.0] + rest.1, rest.2),
                        ),
                    },
                },
            },
        }
    }
}

/// The whole problem text: a header line `n m`, then `n` lines of `m`
/// costs and a supply, then one line of `m` demands, and nothing after.
/// Dimensions must be non-negative and modest enough to index.
#[verifier::opaque]
pub open spec fn spec_parse(s: Seq<char>) -> Result<(Seq<Seq<i64>>, Seq<i64>, Seq<i64>), Error> {
    match spec_number(s, spec_skip_blanks(s, 0)) {
        Err(e) => Err(e),
        Ok(nv) => if nv.0 < 0 || nv.0 > 0x7fffffff {
            Err(Error::MalformedInput)
        } else {
            match spec_number(s, spec_skip_blanks(s, nv.1)) {
                Err(e) => Err(e),
                Ok(mv) => if mv.0 < 0 || mv.0 > 0x7fffffff {
                    Err(Error::MalformedInput)
                } else {
                    match spec_line_end(s, mv.1) {
                        Err(e) => Err(e),
                        Ok(j) => match spec_body_rows(s, j, nv.0 as int, mv.0 as int) {
                            Err(e) => Err(e),
                            Ok(body) => match spec_numbers(s, body.2, mv.0 as int) {
                                Err(e) => Err(e),
                                Ok(dem) => match spec_line_end(s, dem.1) {
                                    Err(e) => Err(e),
                                    Ok(j2) => if j2 < s.len() {
                                        Err(Error::InvalidTrailingData)
                                    } else {
                                        Ok((body.0, body.1, dem.0))
                                    },
                                },
                            },
                        },
                    }
                },
            }
        },
    }
}

/// The mirrored problem text, laid out stage by stage for the proofs
/// below.
pub proof fn lemma_spec_parse_eval(s: Seq<char>)
    ensures
        spec_parse(s) == (match spec_number(s, spec_skip_blanks(s, 0)) {
            Err(e) => Err::<(Seq<Seq<i64>>, Seq<i64>, Seq<i64>), Error>(e),
            Ok(nv) => if nv.0 < 0 || nv.0 > 0x7fffffff {
                Err::<(Seq<Seq<i64>>, Seq<i64>, Seq<i64>), Error>(Error::MalformedInput)
            } else {
                match spec_number(s, spec_skip_blanks(s, nv.1)) {
                    Err(e) => Err::<(Seq<Seq<i64>>, Seq<i64>, Seq<i64>), Error>(e),
                    Ok(mv) => if mv.0 < 0 || mv.0 > 0x7fffffff {
                        Err::<(Seq<Seq<i64>>, Seq<i64>, Seq<i64>), Error>(Error::MalformedInput)
                    } else {
                        match spec_line_end(s, mv.1) {
                            Err(e) => Err::<(Seq<Seq<i64>>, Seq<i64>, Seq<i64>), Error>(e),
                            Ok(j) => match spec_body_rows(s, j, nv.0 as int, mv.0 as int) {
                                Err(e) => Err::<(Seq<Seq<i64>>, Seq<i64>, Seq<i64>), Error>(e),
                                Ok(body) => match spec_numbers(s, body.2, mv.0 as int) {
                                    Err(e) => Err::<(Seq<Seq<i64>>, Seq<i64>, Seq<i64>), Error>(e),
                                    Ok(dem) => match spec_line_end(s, dem.1) {
                                        Err(e) => Err::<
                                            (Seq<Seq<i64>>, Seq<i64>, Seq<i64>),
                                            Error,
                                        >(e),
                                        Ok(j2) => if j2 < s.len() {
                                            Err::<(Seq<Seq<i64>>, Seq<i64>, Seq<i64>), Error>(
                                                Error::InvalidTrailingData,
                                            )
                                        } else {
                                            Ok::<(Seq<Seq<i64>>, Seq<i64>, Seq<i64>), Error>(
                                                (body.0, body.1, dem.0),
                                            )
                                        },
                                    },
                                },
                            },
                        }
                    },
                }
            },
        }),
{
    reveal(spec_parse);
}

/// The first position at or after `i` that does not hold a blank.
#[verifier::loop_isolation(false)]
fn skip_blanks_at(cs: &Vec<char>, i: usize) -> (r: usize)
    requires
        i <= cs@.len(),
    ensures
        r as int == spec_skip_blanks(cs@, i as int),
        i <= r <= cs@.len(),
{
    let mut j = i;
    while j < cs.len() && (cs[j] as u32 == 32 || cs[j] as u32 == 9 || cs[j] as u32 == 13)
        invariant
            i <= j <= cs@.len(),
            spec_skip_blanks(cs@, j as int) == spec_skip_blanks(cs@, i as int),
        decreases cs@.len() - j,
    {
        j += 1;
    }
    j
}

/// One number token at position `i`, mirroring `spec_number`.
#[verifier::loop_isolation(false)]
fn number_at(cs: &Vec<char>, i: usize) -> (r: Result<(i64, usize), Error>)
    requires
        i <= cs@.len(),
    ensures
        r matches Ok(v) ==> spec_number(cs@, i as int) == Ok::<(i64, int), Error>(
            (v.0, v.1 as int),
        ) && i <= v.1 <= cs@.len(),
        r matches Err(e) ==> spec_number(cs@, i as int) == Err::<(i64, int), Error>(e) && e
            == Error::MalformedInput,
{
    if i >= cs.len() {
        return Err(Error::MalformedInput);
    }
    let neg = cs[i] as u32 == 45;
    let start = if neg {
        i + 1
    } else {
        i
    };
    if start >= cs.len() {
        return Err(Error::MalformedInput);
    }
    let c0 = cs[start] as u32;
    if !(48 <= c0 && c0 <= 57) {
        proof {
            assert(!is_digit(cs@[start as int]));
        }
        return Err(Error::MalformedInput);
    }
    proof {
        assert(is_digit(cs@[start as int]));
    }
    let mut j = start;
    let mut acc: i64 = 0;
    while j < cs.len() && (48 <= cs[j] as u32) && (cs[j] as u32 <= 57)
        invariant
            start <= j <= cs@.len(),
            spec_digits_value(cs@, j as int, acc as int, neg) == spec_digits_value(
                cs@,
                start as int,
                0,
                neg,
            ),
        decreases cs@.len() - j,
    {
        let d = (cs[j] as u32 - 48) as i64;
        proof {
            assert(is_digit(cs@[j as int]));
            assert(d as int == digit_value(cs@[j as int]));
        }
        let acc2: i128 = if neg {
            acc as i128 * 10 - d as i128
        } else {
            acc as i128 * 10 + d as i128
        };
        if acc2 < i64::MIN as i128 || acc2 > i64::MAX as i128 {
            proof {
                assert(spec_digits_value(cs@, j as int, acc as int, neg) == Err::<
                    (i64, int),
                    Error,
                >(Error::MalformedInput));
            }
            return Err(Error::MalformedInput);
        }
        acc = acc2 as i64;
        j += 1;
    }
    proof {
        if j < cs@.len() {
            assert(!is_digit(cs@[j as int]));
        }
        assert(spec_digits_value(cs@, j as int, acc as int, neg) == Ok::<(i64, int), Error>(
            (acc, j as int),
        ));
    }
    Ok((acc, j))
}

/// `count` blank-separated numbers, mirroring `spec_numbers`.
#[verifier::loop_isolation(false)]
fn numbers_at(cs: &Vec<char>, i: usize, count: usize) -> (r: Result<(Vec<i64>, usize), Error>)
    requires
        i <= cs@.len(),
    ensures
        r matches Ok(v) ==> spec_numbers(cs@, i as int, count as int) == Ok::<
            (Seq<i64>, int),
            Error,
        >((v.0@, v.1 as int)) && v.1 <= cs@.len() && v.0@.len() == count,
        r matches Err(e) ==> spec_numbers(cs@, i as int, count as int) == Err::<
            (Seq<i64>, int),
            Error,
        >(e) && e == Error::MalformedInput,
{
    let mut out: Vec<i64> = Vec::new();
    let mut pos = i;
    let mut left = count;
    while left > 0
        invariant
            pos <= cs@.len(),
            left <= count,
            out@.len() == count - left,
            (match spec_numbers(cs@, pos as int, left as int) {
                Ok(rest) => spec_numbers(cs@, i as int, count as int) == Ok::<
                    (Seq<i64>, int),
                    Error,
                >((out@ + rest.0, rest.1)),
                Err(e) => spec_numbers(cs@, i as int, count as int) == Err::<
                    (Seq<i64>, int),
                    Error,
                >(e),
            }),
        decreases left,
    {
        let j = skip_blanks_at(cs, pos);
        let ghost out_pre = out@;
        match number_at(cs, j) {
            Ok(vj) => {
                out.push(vj.0);
                proof {
                    assert(out@ =~= out_pre.push(vj.0));
                    assert(spec_numbers(cs@, pos as int, left as int) == (match spec_numbers(
                        cs@,
                        vj.1 as int,
                        left as int - 1,
                    ) {
                        Ok(rest) => Ok::<(Seq<i64>, int), Error>((seq![vj.0] + rest.0, rest.1)),
                        Err(e) => Err::<(Seq<i64>, int), Error>(e),
                    }));
                    assert forall|rest0: Seq<i64>| true implies out_pre + (seq![vj.0] + rest0)
                        =~= out@ + rest0 by {}
                }
                pos = vj.1;
                left -= 1;
            },
            Err(e) => {
                return Err(e);
            },
        }
    }
    proof {
        assert(spec_numbers(cs@, pos as int, 0) == Ok::<(Seq<i64>, int), Error>(
            (Seq::empty(), pos as int),
        ));
        assert(out@ + Seq::<i64>::empty() =~= out@);
    }
    Ok((out, pos))
}

/// The end of a line, mirroring `spec_line_end`.
fn line_end_at(cs: &Vec<char>, i: usize) -> (r: Result<usize, Error>)
    requires
        i <= cs@.len(),
    ensures
        r matches Ok(j) ==> spec_line_end(cs@, i as int) == Ok::<int, Error>(j as int) && j
            <= cs@.len(),
        r matches Err(e) ==> spec_line_end(cs@, i as int) == Err::<int, Error>(e) && e
            == Error::InvalidTrailingData,
{
    let j = skip_blanks_at(cs, i);
    if j >= cs.len() {
        Ok(cs.len())
    } else if cs[j] as u32 == 10 {
        Ok(j + 1)
    } else {
        Err(Error::InvalidTrailingData)
    }
}

/// The `n` cost-and-supply lines, mirroring `spec_body_rows`.
#[verifier::loop_isolation(false)]
fn body_rows_at(cs: &Vec<char>, i: usize, n: usize, m: usize) -> (r: Result<
    (Vec<Vec<i64>>, Vec<i64>, usize),
    Error,
>)
    requires
        i <= cs@.len(),
    ensures
        r matches Ok(v) ==> spec_body_rows(cs@, i as int, n as int, m as int) == Ok::<
            (Seq<Seq<i64>>, Seq<i64>, int),
            Error,
        >((crate::matrix::view2(v.0@), v.1@, v.2 as int)) && v.2 <= cs@.len() && v.0@.len() == n
            && v.1@.len() == n && (forall|k: int|
            0 <= k < n ==> (#[trigger] v.0@[k])@.len() == m),
        r matches Err(e) ==> spec_body_rows(cs@, i as int, n as int, m as int) == Err::<
            (Seq<Seq<i64>>, Seq<i64>, int),
            Error,
        >(e) && (e == Error::MalformedInput || e == Error::InvalidTrailingData),
{
    let mut rows: Vec<Vec<i64>> = Vec::new();
    let mut sups: Vec<i64> = Vec::new();
    let mut pos = i;
    let mut left = n;
    while left > 0
        invariant
            pos <= cs@.len(),
            left <= n,
            rows@.len() == n - left,
            sups@.len() == n - left,
            forall|k: int| 0 <= k < rows@.len() ==> (#[trigger] rows@[k])@.len() == m,
            (match spec_body_rows(cs@, pos as int, left as int, m as int) {
                Ok(rest) => spec_body_rows(cs@, i as int, n as int, m as int) == Ok::<
                    (Seq<Seq<i64>>, Seq<i64>, int),
                    Error,
                >((crate::matrix::view2(rows@) + rest.0, sups@ + rest.1, rest.2)),
                Err(e) => spec_body_rows(cs@, i as int, n as int, m as int) == Err::<
                    (Seq<Seq<i64>>, Seq<i64>, int),
                    Error,
                >(e),
            }),
        decreases left,
    {
        let row = match numbers_at(cs, pos, m) {
            Ok(v) => v,
            Err(e) => {
                return Err(e);
            },
        };
        let j1 = skip_blanks_at(cs, row.1);
        let sup = match number_at(cs, j1) {
            Ok(v) => v,
            Err(e) => {
                return Err(e);
            },
        };
        let j2 = match line_end_at(cs, sup.1) {
            Ok(j) => j,
            Err(e) => {
                return Err(e);
            },
        };
        let ghost rows_pre = rows@;
        let ghost sups_pre = sups@;
        let ghost row_view = row.0@;
        rows.push(row.0);
        sups.push(sup.0);
        proof {
            assert(crate::matrix::view2(rows@) =~= crate::matrix::view2(rows_pre).push(row_view));
            assert forall|rest0: Seq<Seq<i64>>| true implies crate::matrix::view2(rows_pre) + (seq![
                row_view,
            ] + rest0) =~= crate::matrix::view2(rows@) + rest0 by {}
            assert forall|rest1: Seq<i64>| true implies sups_pre + (seq![sup.0] + rest1) =~= sups@
                + rest1 by {}
        }
        pos = j2;
        left -= 1;
    }
    proof {
        assert(spec_body_rows(cs@, pos as int, 0, m as int) == Ok::<
            (Seq<Seq<i64>>, Seq<i64>, int),
            Error,
        >((Seq::empty(), Seq::empty(), pos as int)));
        assert(crate::matrix::view2(rows@) + Seq::<Seq<i64>>::empty() =~= crate::matrix::view2(
            rows@,
        ));
        assert(sups@ + Seq::<i64>::empty() =~= sups@);
    }
    Ok((rows, sups, pos))
}

/// Parse a problem text in the record layout `n m`, then `n` lines of `m`
/// costs and a supply, then one line of `m` demands.  The outcome is
/// pinned to the mirrored `spec_parse`: structurally invalid text is
/// refused with `MalformedInput` or `InvalidTrailingData`, and a text that
/// parses but does not balance is refused with `UnbalancedProblem`.
#[verifier::loop_isolation(false)]
#[verifier::rlimit(60)]
pub fn from_text(text: &str) -> (r: Result<Table, Error>)
    ensures
        r matches Ok(t) ==> {
            &&& spec_parse(text@) matches Ok(p) && t.spec_costs()@ == p.0 && t.spec_supply()
                == p.1 && t.spec_demand() == p.2
            &&& t.wf()
            &&& forall|a: int, b: int|
                0 <= a < t.spec_n() && 0 <= b < t.spec_m()
                    ==> #[trigger] t.spec_transport()@[a][b] == 0i64
        },
        r matches Err(e) ==> (match spec_parse(text@) {
            Err(e2) => e == e2,
            Ok(p) => e == Error::UnbalancedProblem && seq_sum(p.1) != seq_sum(p.2),
        }),
        r matches Err(e) ==> e == Error::MalformedInput || e == Error::InvalidTrailingData || e
            == Error::UnbalancedProblem,
{
    let len = text.unicode_len();
    let mut cs: Vec<char> = Vec::new();
    let mut k: usize = 0;
    while k < len
        invariant
            len == text@.len(),
            k <= len,
            cs@ =~= text@.subrange(0, k as int),
        decreases len - k,
    {
        cs.push(text.get_char(k));
        k += 1;
    }
    proof {
        assert(cs@ =~= text@);
        lemma_spec_parse_eval(text@);
    }
    let j0 = skip_blanks_at(&cs, 0);
    let nv = match number_at(&cs, j0) {
        Ok(v) => v,
        Err(e) => {
            return Err(e);
        },
    };
    if nv.0 < 0 || nv.0 > 0x7fffffff {
        return Err(Error::MalformedInput);
    }
    let j1 = skip_blanks_at(&cs, nv.1);
    let mv = match number_at(&cs, j1) {
        Ok(v) => v,
        Err(e) => {
            return Err(e);
        },
    };
    if mv.0 < 0 || mv.0 > 0x7fffffff {
        return Err(Error::MalformedInput);
    }
    let n = nv.0 as usize;
    let m = mv.0 as usize;
    let j2 = match line_end_at(&cs, mv.1) {
        Ok(j) => j,
        Err(e) => {
            return Err(e);
        },
    };
    let body = match body_rows_at(&cs, j2, n, m) {
        Ok(v) => v,
        Err(e) => {
            return Err(e);
        },
    };
    let dem = match numbers_at(&cs, body.2, m) {
        Ok(v) => v,
        Err(e) => {
            return Err(e);
        },
    };
    let j3 = match line_end_at(&cs, dem.1) {
        Ok(j) => j,
        Err(e) => {
            return Err(e);
        },
    };
    if j3 < cs.len() {
        return Err(Error::InvalidTrailingData);
    }
    let costs = if n == 0 {
        Matrix::new_empty(0, m)
    } else {
        Matrix::new(body.0)
    };
    proof {
        costs.lemma_wf_shape();
        if n == 0 {
            assert(costs@ =~= crate::matrix::view2(Seq::<Vec<i64>>::empty()));
        }
    }
    let transport = Matrix::new_empty(n, m);
    match Table::new(costs, transport, body.1, dem.0) {
        Ok(t) => {
            proof {
                transport.lemma_wf_shape();
                assert forall|a: int, b: int|
                    0 <= a < t.spec_n() && 0 <= b < t.spec_m()
                        implies #[trigger] t.spec_transport()@[a][b] == 0i64 by {
                    assert(transport.in_bounds(a, b));
                }
            }
            Ok(t)
        },
        Err(e) => {
            proof {
                assert(e == Error::UnbalancedProblem);
            }
            Err(e)
        },
    }
}

} // verus!
