//! The boolean stack evaluator over reverse Polish formulas, the truth-table
//! builder, and the satisfiability check.
use crate::ast::is_variable_symbol;
use vstd::prelude::*;

verus! {

/// Why a stack evaluation or a truth table was refused.
#[derive(Clone, Copy, Debug, PartialEq, Eq, Structural)]
pub enum TruthError {
    /// The formula string is empty.
    EmptyFormula,
    /// The character is not a valid operator, or its operands are missing.
    InvalidToken(char),
    /// A literal constant is not allowed where variables are tabulated.
    LiteralOperand(char),
    /// More than one value was left on the stack at the end.
    ResidualStack,
}

/// The five binary connectives of the stack evaluator.
pub open spec fn is_binary_op(c: char) -> bool {
    ||| c == '&'
    ||| c == '|'
    ||| c == '^'
    ||| c == '>'
    ||| c == '='
}

/// The truth function of a binary connective; `a` was pushed first.
pub open spec fn apply_binary(c: char, a: bool, b: bool) -> bool {
    if c == '&' {
        a && b
    } else if c == '|' {
        a || b
    } else if c == '^' {
        a != b
    } else if c == '>' {
        !a || b
    } else {
        a == b
    }
}

/// One step of the stack evaluator: literals push a constant, `!` replaces
/// the top with its negation, a binary connective folds the top two values.
pub open spec fn eval_step(stack: Seq<bool>, c: char) -> Result<Seq<bool>, TruthError> {
    if c == '0' {
        Ok(stack.push(false))
    } else if c == '1' {
        Ok(stack.push(true))
    } else if c == '!' {
        if stack.len() >= 1 {
            Ok(stack.drop_last().push(!stack.last()))
        } else {
            Err(TruthError::InvalidToken(c))
        }
    } else if is_binary_op(c) {
        if stack.len() >= 2 {
            Ok(
                stack.drop_last().drop_last().push(
                    apply_binary(c, stack[stack.len() - 2], stack.last()),
                ),
            )
        } else {
            Err(TruthError::InvalidToken(c))
        }
    } else {
        Err(TruthError::InvalidToken(c))
    }
}

/// The stack after the first `n` characters of the formula, or the first
/// error met.
pub open spec fn run_eval(s: Seq<char>, n: int) -> Result<Seq<bool>, TruthError>
    decreases n,
{
    if n <= 0 {
        Ok(Seq::empty())
    } else {
        match run_eval(s, n - 1) {
            Err(e) => Err(e),
            Ok(st) => eval_step(st, s[n - 1]),
        }
    }
}

/// What `eval_formula` returns: the single value the whole formula leaves on
/// the stack, or the exact error met first.
pub open spec fn spec_eval_formula(s: Seq<char>) -> Result<bool, TruthError> {
    if s.len() == 0 {
        Err(TruthError::EmptyFormula)
    } else {
        match run_eval(s, s.len() as int) {
            Err(e) => Err(e),
            Ok(st) => if st.len() == 1 {
                Ok(st[0])
            } else {
                Err(TruthError::ResidualStack)
            },
        }
    }
}

/// An evaluation error stays whatever characters follow it.
proof fn lemma_run_eval_err(s: Seq<char>, m: int, n: int)
    requires
        0 <= m <= n,
        run_eval(s, m) is Err,
    ensures
        run_eval(s, n) == run_eval(s, m),
    decreases n,
{
    if n > m {
        lemma_run_eval_err(s, m, n - 1);
    }
}

/// Evaluates a reverse Polish formula over the constants `0` and `1` with a
/// stack of booleans, returning the single value the formula denotes.
pub fn eval_formula(formula: &str) -> (r: Result<bool, TruthError>)
    ensures
        r == spec_eval_formula(formula@),
{
    let n = formula.unicode_len();
    if n == 0 {
        return Err(TruthError::EmptyFormula);
    }
    let mut stack: Vec<bool> = Vec::new();
    let mut i: usize = 0;
    while i < n
        invariant
            i <= n,
            n == formula@.len(),
            run_eval(formula@, i as int) == Ok::<Seq<bool>, TruthError>(stack@),
        decreases n - i,
    {
        let c = formula.get_char(i);
        let ghost st0 = stack@;
        if c == '0' {
            stack.push(false);
        } else if c == '1' {
            stack.push(true);
        } else if c == '!' {
            if stack.len() < 1 {
                proof {
                    lemma_run_eval_err(formula@, i + 1, n as int);
                }
                return Err(TruthError::InvalidToken(c));
            }
            let a = stack.pop().unwrap();
            stack.push(!a);
            proof {
                assert(stack@ =~= st0.drop_last().push(!st0.last()));
            }
        } else if c == '&' || c == '|' || c == '^' || c == '>' || c == '=' {
            if stack.len() < 2 {
                proof {
                    lemma_run_eval_err(formula@, i + 1, n as int);
                }
                return Err(TruthError::InvalidToken(c));
            }
            let b = stack.pop().unwrap();
            let a = stack.pop().unwrap();
            let v = if c == '&' {
                a && b
            } else if c == '|' {
                a || b
            } else if c == '^' {
                a != b
            } else if c == '>' {
                !a || b
            } else {
                a == b
            };
            stack.push(v);
            proof {
                assert(stack@ =~= st0.drop_last().drop_last().push(
                    apply_binary(c, st0[st0.len() - 2], st0.last()),
                ));
            }
        } else {
            proof {
                lemma_run_eval_err(formula@, i + 1, n as int);
            }
            return Err(TruthError::InvalidToken(c));
        }
        i = i + 1;
    }
    if stack.len() == 1 {
        let v = stack.pop().unwrap();
        Ok(v)
    } else {
        Err(TruthError::ResidualStack)
    }
}

/// The variable letters of the formula whose code is `code` or higher, in
/// alphabetical order, without repeats.
pub open spec fn sorted_vars_from(s: Seq<char>, code: int) -> Seq<char>
    decreases 91 - code,
{
    if code < 65 || code >= 91 {
        Seq::empty()
    } else {
        let c = code as char;
        let rest = sorted_vars_from(s, code + 1);
        if s.contains(c) {
            seq![c] + rest
        } else {
            rest
        }
    }
}

/// The column letters of a formula's truth table: each variable letter that
/// occurs in the formula, in alphabetical order.
pub open spec fn sorted_vars(s: Seq<char>) -> Seq<char> {
    sorted_vars_from(s, 65)
}

/// A strictly ascending list of characters has no repeats.
pub open spec fn strictly_ascending(keys: Seq<char>) -> bool {
    forall|p: int, q: int| 0 <= p < q < keys.len() ==> (keys[p] as u32) < (keys[q] as u32)
}

/// Whether the character occurs in the string.
fn contains_char(s: &str, c: char) -> (r: bool)
    ensures
        r == s@.contains(c),
{
    let n = s.unicode_len();
    let mut i: usize = 0;
    while i < n
        invariant
            i <= n,
            n == s@.len(),
            forall|j: int| 0 <= j < i ==> s@[j] != c,
        decreases n - i,
    {
        if s.get_char(i) == c {
            return true;
        }
        i = i + 1;
    }
    false
}

/// Collects the truth table's column letters: the variables of the formula,
/// sorted, without repeats.
pub(crate) fn collect_vars(formula: &str) -> (keys: Vec<char>)
    ensures
        keys@ == sorted_vars(formula@),
        strictly_ascending(keys@),
        keys@.len() <= 26,
{
    let mut keys: Vec<char> = Vec::new();
    let mut code: u8 = 65;
    while code <= 90
        invariant
            65 <= code <= 91,
            sorted_vars(formula@) == keys@ + sorted_vars_from(formula@, code as int),
            keys@.len() <= code - 65,
            forall|p: int| 0 <= p < keys@.len() ==> (keys@[p] as u32) < code as u32,
            strictly_ascending(keys@),
        decreases 91 - code,
    {
        let c = code as char;
        let ghost before = keys@;
        if contains_char(formula, c) {
            keys.push(c);
        }
        proof {
            let rest = sorted_vars_from(formula@, code as int + 1);
            if formula@.contains(c) {
                assert(sorted_vars_from(formula@, code as int) == seq![c] + rest);
                assert(before + (seq![c] + rest) =~= (before.push(c)) + rest);
            } else {
                assert(sorted_vars_from(formula@, code as int) == rest);
            }
        }
        code = code + 1;
    }
    proof {
        assert(sorted_vars_from(formula@, 91) == Seq::<char>::empty());
        assert(keys@ + Seq::<char>::empty() =~= keys@);
    }
    keys
}

/// The bit the truth table assigns to the variable of index `i` out of `n` in
/// row `v`: the first column varies slowest.
pub open spec fn var_bit(v: u32, n: int, i: int) -> bool {
    (v >> ((n - 1 - i) as u32)) & 1 == 1
}

/// One character of the substituted formula: a variable becomes the literal
/// of its bit in row `v`, anything else stays.
pub open spec fn subst_char(keys: Seq<char>, v: u32, c: char) -> char {
    if is_variable_symbol(c) && keys.contains(c) {
        if var_bit(v, keys.len() as int, keys.index_of(c)) {
            '1'
        } else {
            '0'
        }
    } else {
        c
    }
}

/// The formula with every variable replaced by its literal in row `v`.
pub open spec fn subst(s: Seq<char>, keys: Seq<char>, v: u32) -> Seq<char> {
    Seq::new(s.len(), |i: int| subst_char(keys, v, s[i]))
}

/// The truth value of the formula in row `v`.
pub open spec fn row_result(s: Seq<char>, keys: Seq<char>, v: u32) -> Result<bool, TruthError> {
    spec_eval_formula(subst(s, keys, v))
}

/// The position of `c` in the column list.
pub(crate) fn index_in(keys: &Vec<char>, c: char) -> (r: usize)
    requires
        strictly_ascending(keys@),
        keys@.contains(c),
    ensures
        r == keys@.index_of(c),
        r < keys@.len(),
{
    let n = keys.len();
    let mut i: usize = 0;
    while i < n
        invariant
            i <= n,
            n == keys@.len(),
            strictly_ascending(keys@),
            keys@.contains(c),
            forall|j: int| 0 <= j < i ==> keys@[j] != c,
        decreases n - i,
    {
        if keys[i] == c {
            proof {
                let w = keys@.index_of(c);
                assert(keys@[w] == c);
                assert(w == i) by {
                    if w < i {
                        assert(keys@[w] != c);
                    }
                    if w > i as int {
                        assert((keys@[i as int] as u32) < (keys@[w] as u32));
                    }
                }
            }
            return i;
        }
        i = i + 1;
    }
    proof {
        let w = choose|w: int| 0 <= w < keys@.len() && keys@[w] == c;
        assert(keys@[w] != c);
    }
    0
}

/// Builds the substituted formula of row `v`.
fn subst_formula(formula: &str, keys: &Vec<char>, v: u32) -> (r: String)
    requires
        strictly_ascending(keys@),
        forall|j: int|
            0 <= j < formula@.len() && is_variable_symbol(#[trigger] formula@[j])
                ==> keys@.contains(formula@[j]),
        keys@.len() <= 26,
    ensures
        r@ == subst(formula@, keys@, v),
{
    let n = formula.unicode_len();
    let mut out = String::new();
    let mut i: usize = 0;
    while i < n
        invariant
            i <= n,
            n == formula@.len(),
            strictly_ascending(keys@),
            keys@.len() <= 26,
            forall|j: int|
                0 <= j < formula@.len() && is_variable_symbol(#[trigger] formula@[j])
                    ==> keys@.contains(formula@[j]),
            out@ =~= subst(formula@, keys@, v).take(i as int),
        decreases n - i,
    {
        let c = formula.get_char(i);
        let u = c as u32;
        if 65 <= u && u <= 90 {
            let idx = index_in(keys, c);
            let sh = (keys.len() - 1 - idx) as u32;
            let bit = (v >> sh) & 1;
            crate::ast::push_char(&mut out, if bit == 1 {
                '1'
            } else {
                '0'
            });
        } else {
            crate::ast::push_char(&mut out, c);
        }
        proof {
            assert(out@ =~= subst(formula@, keys@, v).take(i + 1));
        }
        i = i + 1;
    }
    proof {
        assert(subst(formula@, keys@, v).take(n as int) =~= subst(formula@, keys@, v));
    }
    out
}

/// The letters of the sorted column list are exactly the formula's variables.
pub proof fn lemma_sorted_vars_contains(s: Seq<char>, c: char)
    ensures
        sorted_vars(s).contains(c) == (is_variable_symbol(c) && s.contains(c)),
{
    lemma_sorted_vars_from_contains(s, c, 65);
}

proof fn lemma_sorted_vars_from_contains(s: Seq<char>, c: char, code: int)
    requires
        65 <= code <= 91,
    ensures
        sorted_vars_from(s, code).contains(c) == (is_variable_symbol(c) && code <= c as u32 <= 90
            && s.contains(c)),
    decreases 91 - code,
{
    if code >= 91 {
    } else {
        let c0 = code as char;
        lemma_sorted_vars_from_contains(s, c, code + 1);
        let rest = sorted_vars_from(s, code + 1);
        assert(c0 as u32 == code);
        if s.contains(c0) {
            assert(sorted_vars_from(s, code) == seq![c0] + rest);
            assert forall|x: char| (seq![c0] + rest).contains(x) == (x == c0 || rest.contains(
                x,
            )) by {
                if (seq![c0] + rest).contains(x) {
                    let i = choose|i: int|
                        0 <= i < (seq![c0] + rest).len() && (seq![c0] + rest)[i] == x;
                    if i == 0 {
                    } else {
                        assert(rest[i - 1] == x);
                    }
                }
                if x == c0 {
                    assert((seq![c0] + rest)[0] == x);
                }
                if rest.contains(x) {
                    let i = choose|i: int| 0 <= i < rest.len() && rest[i] == x;
                    assert((seq![c0] + rest)[i + 1] == x);
                }
            }
            if c == c0 {
                assert(c as u32 == code);
            }
        } else {
            if c == c0 {
                assert(!s.contains(c));
            }
        }
    }
}

/// One rendered table line over its cell characters: each cell between pipes,
/// a newline at the end.
pub open spec fn render_row(cells: Seq<char>) -> Seq<char>
    decreases cells.len(),
{
    if cells.len() == 0 {
        seq!['|', '\n']
    } else {
        seq!['|', ' ', cells[0], ' '] + render_row(cells.drop_first())
    }
}

/// The separator line under the header: one dash run per column.
pub open spec fn render_sep(cols: int) -> Seq<char>
    decreases cols,
{
    if cols <= 0 {
        seq!['|', '\n']
    } else {
        seq!['|', '-', '-', '-'] + render_sep(cols - 1)
    }
}

/// The literal of a truth value.
pub open spec fn bit_char(b: bool) -> char {
    if b {
        '1'
    } else {
        '0'
    }
}

/// The variable cells of row `v`, first column varying slowest.
pub open spec fn row_bits(keys: Seq<char>, v: u32) -> Seq<char> {
    Seq::new(keys.len(), |i: int| bit_char(var_bit(v, keys.len() as int, i)))
}

/// The first `m` rendered rows of the table, or the first error met.
pub open spec fn table_rows(s: Seq<char>, keys: Seq<char>, m: nat) -> Result<Seq<char>, TruthError>
    decreases m,
{
    if m == 0 {
        Ok(Seq::empty())
    } else {
        match table_rows(s, keys, (m - 1) as nat) {
            Err(e) => Err(e),
            Ok(pre) => match row_result(s, keys, (m - 1) as u32) {
                Err(e) => Err(e),
                Ok(b) => Ok(
                    pre + render_row(row_bits(keys, (m - 1) as u32).push(bit_char(b))),
                ),
            },
        }
    }
}

/// The first literal constant of the formula, if any: the table rejects it.
pub open spec fn first_literal(s: Seq<char>) -> Option<char>
    decreases s.len(),
{
    if s.len() == 0 {
        None
    } else if s[0] == '0' || s[0] == '1' {
        Some(s[0])
    } else {
        first_literal(s.drop_first())
    }
}

/// What `table` returns: the header over the sorted variables and the result
/// column, the separator, and one row for each of the `2^n` assignments; or
/// the first error met, a literal constant being rejected before any row is
/// evaluated.
pub open spec fn spec_table(s: Seq<char>) -> Result<Seq<char>, TruthError> {
    let keys = sorted_vars(s);
    match first_literal(s) {
        Some(c) => Err(TruthError::LiteralOperand(c)),
        None => match table_rows(s, keys, (1u32 << (keys.len() as u32)) as nat) {
            Err(e) => Err(e),
            Ok(rows) => Ok(
                render_row(keys.push('=')) + render_sep(keys.len() as int + 1) + rows,
            ),
        },
    }
}

/// A row error stays whatever rows follow it.
proof fn lemma_table_rows_err(s: Seq<char>, keys: Seq<char>, m1: nat, m2: nat)
    requires
        m1 <= m2,
        table_rows(s, keys, m1) is Err,
    ensures
        table_rows(s, keys, m2) == table_rows(s, keys, m1),
    decreases m2,
{
    if m2 > m1 {
        lemma_table_rows_err(s, keys, m1, (m2 - 1) as nat);
    }
}

/// When the whole table is built, every one of its rows evaluated.
proof fn lemma_table_rows_all_ok(s: Seq<char>, keys: Seq<char>, m: nat, v: nat)
    requires
        table_rows(s, keys, m) is Ok,
        v < m,
    ensures
        row_result(s, keys, v as u32) is Ok,
        table_rows(s, keys, v) is Ok,
    decreases m,
{
    if v + 1 < m {
        lemma_table_rows_all_ok(s, keys, (m - 1) as nat, v);
    }
}

/// Renders one table line from its cell characters.
fn render_row_exec(cells: &Vec<char>) -> (r: String)
    ensures
        r@ == render_row(cells@),
{
    let n = cells.len();
    let mut out = String::new();
    let mut i: usize = 0;
    proof {
        assert(cells@.skip(0) =~= cells@);
        assert(out@ + render_row(cells@) =~= render_row(cells@));
    }
    while i < n
        invariant
            i <= n,
            n == cells@.len(),
            render_row(cells@) == out@ + render_row(cells@.skip(i as int)),
        decreases n - i,
    {
        let ghost pre = out@;
        crate::ast::push_char(&mut out, '|');
        crate::ast::push_char(&mut out, ' ');
        crate::ast::push_char(&mut out, cells[i]);
        crate::ast::push_char(&mut out, ' ');
        proof {
            let rem = cells@.skip(i as int);
            assert(rem[0] == cells@[i as int]);
            assert(rem.drop_first() =~= cells@.skip(i + 1));
            assert(render_row(rem) == seq!['|', ' ', cells@[i as int], ' '] + render_row(
                cells@.skip(i + 1),
            ));
            assert(out@ =~= pre + seq!['|', ' ', cells@[i as int], ' ']);
            assert(render_row(cells@) == out@ + render_row(cells@.skip(i + 1))) by {
                assert(pre + (seq!['|', ' ', cells@[i as int], ' '] + render_row(
                    cells@.skip(i + 1),
                )) =~= (pre + seq!['|', ' ', cells@[i as int], ' ']) + render_row(
                    cells@.skip(i + 1),
                ));
            }
        }
        i = i + 1;
    }
    let ghost pre = out@;
    crate::ast::push_char(&mut out, '|');
    crate::ast::push_char(&mut out, '\n');
    proof {
        assert(cells@.skip(n as int) =~= Seq::<char>::empty());
        assert(render_row(Seq::<char>::empty()) == seq!['|', '\n']);
        assert(out@ =~= pre + seq!['|', '\n']);
        assert(out@ =~= render_row(cells@));
    }
    out
}

/// Renders the separator line for the given number of columns.
fn render_sep_exec(cols: usize) -> (r: String)
    ensures
        r@ == render_sep(cols as int),
{
    let mut out = String::new();
    let mut i: usize = 0;
    proof {
        assert(out@ + render_sep(cols as int) =~= render_sep(cols as int));
    }
    while i < cols
        invariant
            i <= cols,
            render_sep(cols as int) == out@ + render_sep(cols - i),
        decreases cols - i,
    {
        let ghost pre = out@;
        crate::ast::push_char(&mut out, '|');
        crate::ast::push_char(&mut out, '-');
        crate::ast::push_char(&mut out, '-');
        crate::ast::push_char(&mut out, '-');
        proof {
            assert(render_sep(cols - i) == seq!['|', '-', '-', '-'] + render_sep(
                cols - i - 1,
            ));
            assert(out@ =~= pre + seq!['|', '-', '-', '-']);
            assert(render_sep(cols as int) == out@ + render_sep(cols - i - 1)) by {
                assert(pre + (seq!['|', '-', '-', '-'] + render_sep(cols - i - 1)) =~= (pre
                    + seq!['|', '-', '-', '-']) + render_sep(cols - i - 1));
            }
        }
        i = i + 1;
    }
    let ghost pre = out@;
    crate::ast::push_char(&mut out, '|');
    crate::ast::push_char(&mut out, '\n');
    proof {
        assert(out@ =~= pre + seq!['|', '\n']);
        assert(out@ =~= render_sep(cols as int));
    }
    out
}

/// Builds the truth table of a formula over variables: a header row of the
/// sorted variables and the result column, a separator, and one row for each
/// assignment of the variables, counted up with the first column slowest.
pub fn table(formula: &str) -> (r: Result<String, TruthError>)
    ensures
        match spec_table(formula@) {
            Ok(t) => r matches Ok(out) && out@ == t,
            Err(e) => r == Err::<String, TruthError>(e),
        },
{
    let n = formula.unicode_len();
    let mut i: usize = 0;
    proof {
        assert(formula@.skip(0) =~= formula@);
    }
    while i < n
        invariant
            i <= n,
            n == formula@.len(),
            first_literal(formula@) == first_literal(formula@.skip(i as int)),
        decreases n - i,
    {
        let c = formula.get_char(i);
        proof {
            assert(formula@.skip(i as int)[0] == c);
            assert(formula@.skip(i as int).drop_first() =~= formula@.skip(i + 1));
        }
        if c == '0' || c == '1' {
            return Err(TruthError::LiteralOperand(c));
        }
        i = i + 1;
    }
    proof {
        assert(formula@.skip(n as int) =~= Seq::<char>::empty());
        assert(first_literal(formula@) is None);
    }
    let keys = collect_vars(formula);
    proof {
        assert forall|j: int|
            0 <= j < formula@.len() && is_variable_symbol(#[trigger] formula@[j]) implies
            keys@.contains(formula@[j]) by {
            lemma_sorted_vars_contains(formula@, formula@[j]);
            assert(formula@.contains(formula@[j]));
        }
    }
    let mut header_cells: Vec<char> = Vec::new();
    let mut j: usize = 0;
    while j < keys.len()
        invariant
            j <= keys@.len(),
            header_cells@ =~= keys@.take(j as int),
        decreases keys@.len() - j,
    {
        header_cells.push(keys[j]);
        j = j + 1;
    }
    header_cells.push('=');
    proof {
        assert(keys@.take(keys@.len() as int) =~= keys@);
        assert(header_cells@ =~= keys@.push('='));
    }
    let header = render_row_exec(&header_cells);
    let sep = render_sep_exec(keys.len() + 1);
    let mut out = header;
    out.append(sep.as_str());
    let ghost prefix = render_row(keys@.push('=')) + render_sep(keys@.len() as int + 1);
    proof {
        assert(out@ =~= prefix);
    }
    let max: u32 = 1u32 << (keys.len() as u32);
    let mut v: u32 = 0;
    while v < max
        invariant
            v <= max,
            max == 1u32 << (keys@.len() as u32),
            keys@ == sorted_vars(formula@),
            strictly_ascending(keys@),
            keys@.len() <= 26,
            n == formula@.len(),
            forall|j: int|
                0 <= j < formula@.len() && is_variable_symbol(#[trigger] formula@[j])
                    ==> keys@.contains(formula@[j]),
            table_rows(formula@, keys@, v as nat) matches Ok(rows) && out@ == prefix + rows,
            prefix == render_row(keys@.push('=')) + render_sep(keys@.len() as int + 1),
            first_literal(formula@) is None,
        decreases max - v,
    {
        let substituted = subst_formula(formula, &keys, v);
        let ghost rows_pre = table_rows(formula@, keys@, v as nat)->Ok_0;
        let res = match eval_formula(substituted.as_str()) {
            Ok(b) => b,
            Err(e) => {
                proof {
                    assert(table_rows(formula@, keys@, (v + 1) as nat) == Err::<
                        Seq<char>,
                        TruthError,
                    >(e));
                    lemma_table_rows_err(formula@, keys@, (v + 1) as nat, (1u32 << (
                    keys@.len() as u32)) as nat);
                }
                return Err(e);
            },
        };
        let nvars = keys.len();
        let mut rcells: Vec<char> = Vec::new();
        let mut k: usize = 0;
        while k < nvars
            invariant
                k <= nvars,
                nvars == keys@.len(),
                nvars <= 26,
                rcells@ =~= row_bits(keys@, v).take(k as int),
            decreases nvars - k,
        {
            let sh = (nvars - 1 - k) as u32;
            let bit = (v >> sh) & 1;
            rcells.push(
                if bit == 1 {
                    '1'
                } else {
                    '0'
                },
            );
            proof {
                assert(row_bits(keys@, v)[k as int] == bit_char(
                    var_bit(v, keys@.len() as int, k as int),
                ));
                assert(rcells@ =~= row_bits(keys@, v).take(k + 1));
            }
            k = k + 1;
        }
        rcells.push(if res {
            '1'
        } else {
            '0'
        });
        proof {
            assert(row_bits(keys@, v).take(keys@.len() as int) =~= row_bits(keys@, v));
            assert(rcells@ =~= row_bits(keys@, v).push(bit_char(res)));
        }
        let rowstr = render_row_exec(&rcells);
        out.append(rowstr.as_str());
        proof {
            assert(table_rows(formula@, keys@, (v + 1) as nat) == Ok::<Seq<char>, TruthError>(
                rows_pre + render_row(row_bits(keys@, v).push(bit_char(res))),
            ));
            assert(out@ =~= prefix + (rows_pre + render_row(
                row_bits(keys@, v).push(bit_char(res)),
            )));
        }
        v = v + 1;
    }
    Ok(out)
}

/// Whether some assignment of row index below `m` satisfies the formula; the
/// search stops at the first satisfying row.
pub open spec fn sat_upto(s: Seq<char>, keys: Seq<char>, m: nat) -> Result<bool, TruthError>
    decreases m,
{
    if m == 0 {
        Ok(false)
    } else {
        match sat_upto(s, keys, (m - 1) as nat) {
            Err(e) => Err(e),
            Ok(true) => Ok(true),
            Ok(false) => row_result(s, keys, (m - 1) as u32),
        }
    }
}

/// What `sat` returns: whether any of the `2^n` assignments of the formula's
/// variables makes it true.
pub open spec fn spec_sat(s: Seq<char>) -> Result<bool, TruthError> {
    let keys = sorted_vars(s);
    sat_upto(s, keys, (1u32 << (keys.len() as u32)) as nat)
}

/// A decided search stays decided whatever rows follow.
proof fn lemma_sat_upto_stable(s: Seq<char>, keys: Seq<char>, m1: nat, m2: nat)
    requires
        m1 <= m2,
        sat_upto(s, keys, m1) is Err || sat_upto(s, keys, m1) == Ok::<bool, TruthError>(true),
    ensures
        sat_upto(s, keys, m2) == sat_upto(s, keys, m1),
    decreases m2,
{
    if m2 > m1 {
        lemma_sat_upto_stable(s, keys, m1, (m2 - 1) as nat);
    }
}

/// The satisfiability law: a finished search says `true` exactly when some
/// assignment below `m` makes the formula's row true.
proof fn lemma_sat_upto_exists(s: Seq<char>, keys: Seq<char>, m: nat)
    requires
        sat_upto(s, keys, m) is Ok,
    ensures
        sat_upto(s, keys, m)->Ok_0 == (exists|v: nat|
            v < m && #[trigger] row_result(s, keys, v as u32) == Ok::<bool, TruthError>(true)),
    decreases m,
{
    if m > 0 {
        if sat_upto(s, keys, (m - 1) as nat) is Ok {
            lemma_sat_upto_exists(s, keys, (m - 1) as nat);
            if sat_upto(s, keys, (m - 1) as nat) == Ok::<bool, TruthError>(true) {
                let w = choose|v: nat|
                    v < m - 1 && #[trigger] row_result(s, keys, v as u32) == Ok::<
                        bool,
                        TruthError,
                    >(true);
                assert(w < m && row_result(s, keys, w as u32) == Ok::<bool, TruthError>(true));
            } else {
                if row_result(s, keys, (m - 1) as u32) == Ok::<bool, TruthError>(true) {
                    let w = (m - 1) as nat;
                    assert(w < m && row_result(s, keys, w as u32) == Ok::<bool, TruthError>(
                        true,
                    ));
                } else {
                    assert forall|v: nat|
                        v < m implies !(#[trigger] row_result(s, keys, v as u32) == Ok::<
                        bool,
                        TruthError,
                    >(true)) by {
                        if v < m - 1 {
                        }
                    }
                }
            }
        }
    }
}

/// Satisfiability agrees with the truth table: where the table was built,
/// the search finishes, and it answers `true` exactly when some row of the
/// table carries the result `1`.
pub proof fn lemma_sat_matches_table(s: Seq<char>)
    requires
        spec_table(s) is Ok,
    ensures
        spec_sat(s) is Ok,
        spec_sat(s)->Ok_0 == (exists|v: nat|
            v < (1u32 << (sorted_vars(s).len() as u32)) && #[trigger] row_result(
                s,
                sorted_vars(s),
                v as u32,
            ) == Ok::<bool, TruthError>(true)),
{
    let keys = sorted_vars(s);
    let m = (1u32 << (keys.len() as u32)) as nat;
    assert(table_rows(s, keys, m) is Ok);
    lemma_sat_upto_ok(s, keys, m, m);
    lemma_sat_upto_exists(s, keys, m);
}

/// When every row below `m` evaluates, the search below `m` finishes.
proof fn lemma_sat_upto_ok(s: Seq<char>, keys: Seq<char>, m: nat, total: nat)
    requires
        m <= total,
        table_rows(s, keys, total) is Ok,
    ensures
        sat_upto(s, keys, m) is Ok,
    decreases m,
{
    if m > 0 {
        lemma_sat_upto_ok(s, keys, (m - 1) as nat, total);
        lemma_table_rows_all_ok(s, keys, total, (m - 1) as nat);
    }
}

/// Decides whether some assignment of the formula's variables makes it true.
pub fn sat(formula: &str) -> (r: Result<bool, TruthError>)
    ensures
        r == spec_sat(formula@),
{
    let keys = collect_vars(formula);
    proof {
        assert forall|j: int|
            0 <= j < formula@.len() && is_variable_symbol(#[trigger] formula@[j]) implies
            keys@.contains(formula@[j]) by {
            lemma_sorted_vars_contains(formula@, formula@[j]);
            assert(formula@.contains(formula@[j]));
        }
    }
    let max: u32 = 1u32 << (keys.len() as u32);
    let mut v: u32 = 0;
    while v < max
        invariant
            v <= max,
            max == 1u32 << (keys@.len() as u32),
            keys@ == sorted_vars(formula@),
            strictly_ascending(keys@),
            keys@.len() <= 26,
            forall|j: int|
                0 <= j < formula@.len() && is_variable_symbol(#[trigger] formula@[j])
                    ==> keys@.contains(formula@[j]),
            sat_upto(formula@, keys@, v as nat) == Ok::<bool, TruthError>(false),
        decreases max - v,
    {
        let substituted = subst_formula(formula, &keys, v);
        match eval_formula(substituted.as_str()) {
            Err(e) => {
                proof {
                    assert(sat_upto(formula@, keys@, (v + 1) as nat) == Err::<bool, TruthError>(
                        e,
                    ));
                    lemma_sat_upto_stable(formula@, keys@, (v + 1) as nat, (1u32 << (
                    keys@.len() as u32)) as nat);
                }
                return Err(e);
            },
            Ok(true) => {
                proof {
                    assert(sat_upto(formula@, keys@, (v + 1) as nat) == Ok::<bool, TruthError>(
                        true,
                    ));
                    lemma_sat_upto_stable(formula@, keys@, (v + 1) as nat, (1u32 << (
                    keys@.len() as u32)) as nat);
                }
                return Ok(true);
            },
            Ok(false) => {
                proof {
                    assert(sat_upto(formula@, keys@, (v + 1) as nat) == Ok::<bool, TruthError>(
                        false,
                    ));
                }
            },
        }
        v = v + 1;
    }
    Ok(false)
}

} // verus!
