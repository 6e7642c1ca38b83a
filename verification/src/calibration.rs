//! Calibration equations: a target value and operands combined strictly
//! left to right with `+`, `*` or digit concatenation.  Operator
//! assignments are enumerated as binary or ternary encodings of a
//! variation index.

use vstd::prelude::*;

verus! {

/// An operator between two adjacent operands.
#[derive(Clone, Copy, PartialEq, Eq, Structural, Debug)]
pub enum Operator {
    Add,
    Multiply,
    Concatenate,
}

/// Ten to the `k`-th power.
pub open spec fn pow10(k: nat) -> int
    decreases k,
{
    if k == 0 {
        1
    } else {
        10 * pow10((k - 1) as nat)
    }
}

/// Number of decimal digits of `n` (one digit for values below ten).
pub open spec fn digits(n: int) -> nat
    decreases n,
{
    if n < 10 {
        1
    } else {
        1 + digits(n / 10)
    }
}

/// The decimal concatenation of `a` and `b`: the digits of `b` appended
/// to the digits of `a`.
pub open spec fn concat_val(a: int, b: int) -> int {
    a * pow10(digits(b)) + b
}

/// One operator applied to the running value and the next operand.
pub open spec fn apply_op(acc: int, op: Operator, n: int) -> int {
    match op {
        Operator::Add => acc + n,
        Operator::Multiply => acc * n,
        Operator::Concatenate => concat_val(acc, n),
    }
}

/// Number of operator applications: one per operand after the first,
/// limited by the number of operators supplied.
pub open spec fn fold_len(operands: Seq<u64>, ops: Seq<Operator>) -> int {
    if operands.len() - 1 <= ops.len() {
        operands.len() - 1
    } else {
        ops.len() as int
    }
}

/// The running value after the first `k` operator applications.
pub open spec fn eval_prefix(operands: Seq<u64>, ops: Seq<Operator>, k: int) -> int
    decreases k,
{
    if k <= 0 {
        operands[0] as int
    } else {
        apply_op(eval_prefix(operands, ops, k - 1), ops[k - 1], operands[k] as int)
    }
}

/// The value of the whole left-to-right evaluation (zero when there are
/// no operands).
pub open spec fn eval_spec(operands: Seq<u64>, ops: Seq<Operator>) -> int {
    if operands.len() == 0 {
        0
    } else {
        eval_prefix(operands, ops, fold_len(operands, ops))
    }
}

/// The machine limits under which the evaluation runs without overflow:
/// every running value fits in a `u64`, and every concatenated operand
/// is positive with at most nineteen digits.
pub open spec fn eval_fits(operands: Seq<u64>, ops: Seq<Operator>) -> bool {
    forall|k: int|
        1 <= k <= fold_len(operands, ops) ==> (0 <= #[trigger] eval_prefix(operands, ops, k)
            <= u64::MAX) && (ops[k - 1] is Concatenate ==> 1 <= operands[k] < pow10(19))
}

proof fn lemma_pow10_19()
    ensures
        pow10(19) == 10000000000000000000,
        pow10(1) == 10,
        pow10(0) == 1,
{
    reveal_with_fuel(pow10, 21);
}

proof fn lemma_pow10_pos(k: nat)
    ensures
        pow10(k) >= 1,
    decreases k,
{
    if k > 0 {
        lemma_pow10_pos((k - 1) as nat);
    }
}

proof fn lemma_pow10_mono(a: nat, b: nat)
    requires
        a <= b,
    ensures
        pow10(a) <= pow10(b),
    decreases b,
{
    if a < b {
        lemma_pow10_mono(a, (b - 1) as nat);
        lemma_pow10_pos(a);
    }
}

/// A nonnegative value divided by a larger positive value gives zero,
/// and at least the divisor gives a positive quotient.
proof fn lemma_div_zero_iff(x: int, d: int)
    requires
        0 <= x,
        0 < d,
    ensures
        (x / d == 0) <==> (x < d),
{
    vstd::arithmetic::div_mod::lemma_fundamental_div_mod(x, d);
    if x < d {
        vstd::arithmetic::div_mod::lemma_basic_div(x, d);
    } else {
        vstd::arithmetic::div_mod::lemma_div_non_zero(x, d);
    }
}

/// A value between two adjacent powers of ten has exactly `k` digits.
proof fn lemma_digits_character(n: int, k: nat)
    requires
        1 <= n,
        1 <= k,
        pow10((k - 1) as nat) <= n,
        n < pow10(k),
    ensures
        digits(n) == k,
    decreases k,
{
    if k == 1 {
    } else {
        assert(pow10((k - 1) as nat) == 10 * pow10((k - 2) as nat));
        assert(pow10(k) == 10 * pow10((k - 1) as nat));
        lemma_pow10_pos((k - 2) as nat);
        assert(n >= 10);
        vstd::arithmetic::div_mod::lemma_div_is_ordered(10 * pow10((k - 2) as nat), n, 10);
        vstd::arithmetic::div_mod::lemma_div_multiples_vanish(pow10((k - 2) as nat), 10);
        assert(n / 10 >= pow10((k - 2) as nat));
        vstd::arithmetic::div_mod::lemma_div_is_ordered(n, 10 * pow10((k - 1) as nat) - 1, 10);
        vstd::arithmetic::div_mod::lemma_fundamental_div_mod_converse(
            10 * pow10((k - 1) as nat) - 1,
            10,
            pow10((k - 1) as nat) - 1,
            9,
        );
        assert(n / 10 < pow10((k - 1) as nat));
        lemma_digits_character(n / 10, (k - 1) as nat);
    }
}

/// An equation: the target value and the operands.
pub struct Equation {
    pub value: u64,
    pub operands: Vec<u64>,
}

/// Evaluate the operands strictly left to right under the given
/// operators: `+` adds, `*` multiplies, and concatenation appends the
/// decimal digits of the next operand to the running value.
pub fn eval(operands: &Vec<u64>, operators: &Vec<Operator>) -> (r: u64)
    requires
        eval_fits(operands@, operators@),
    ensures
        r == eval_spec(operands@, operators@),
{
    if operands.len() == 0 {
        return 0;
    }
    let folds = if operands.len() - 1 < operators.len() {
        operands.len() - 1
    } else {
        operators.len()
    };
    let mut output = operands[0];
    let mut j: usize = 0;
    while j < folds
        invariant
            eval_fits(operands@, operators@),
            operands@.len() >= 1,
            folds == fold_len(operands@, operators@),
            folds < operands@.len(),
            folds <= operators@.len(),
            j <= folds,
            output == eval_prefix(operands@, operators@, j as int),
        decreases folds - j,
    {
        let n = operands[j + 1];
        let op = operators[j];
        proof {
            assert(1 <= j + 1 <= fold_len(operands@, operators@));
            assert(0 <= eval_prefix(operands@, operators@, j as int + 1) <= u64::MAX);
        }
        match op {
            Operator::Add => {
                output = output + n;
            },
            Operator::Multiply => {
                output = output * n;
            },
            Operator::Concatenate => {
                proof {
                    assert(1 <= n < pow10(19));
                    lemma_pow10_mono(1, 19);
                }
                let mut shift: u64 = 10;
                let mut m = n / 10;
                let ghost mut count: nat = 1;
                proof {
                    lemma_pow10_19();
                }
                while m > 0
                    invariant
                        1 <= n < pow10(19),
                        1 <= count,
                        shift == pow10(count),
                        m == n as int / pow10(count),
                        n >= pow10((count - 1) as nat),
                        shift <= pow10(19),
                    decreases m,
                {
                    proof {
                        lemma_pow10_19();
                        lemma_pow10_pos(count);
                        lemma_div_zero_iff(n as int, pow10(count));
                        assert(n >= pow10(count));
                        if count + 1 > 19 {
                            lemma_pow10_mono(19, count);
                            assert(false);
                        }
                        lemma_pow10_mono(count + 1, 19);
                        assert(pow10(count + 1) == 10 * pow10(count));
                        vstd::arithmetic::div_mod::lemma_div_denominator(
                            n as int,
                            pow10(count),
                            10,
                        );
                        assert(pow10(count) * 10 == 10 * pow10(count)) by (nonlinear_arith);
                    }
                    shift = shift * 10;
                    m = m / 10;
                    proof {
                        count = count + 1;
                    }
                }
                proof {
                    lemma_pow10_pos(count);
                    lemma_div_zero_iff(n as int, pow10(count));
                    lemma_digits_character(n as int, count);
                    assert(shift == pow10(digits(n as int)));
                }
                output = output * shift + n;
            },
        }
        j = j + 1;
    }
    output
}

/// Three to the `k`-th power.
pub open spec fn pow3(k: nat) -> int
    decreases k,
{
    if k == 0 {
        1
    } else {
        3 * pow3((k - 1) as nat)
    }
}

proof fn lemma_pow3_40()
    ensures
        pow3(40) == 12157665459056928801,
        pow3(0) == 1,
{
    reveal_with_fuel(pow3, 42);
}

proof fn lemma_pow3_mono(a: nat, b: nat)
    requires
        a <= b,
    ensures
        pow3(a) <= pow3(b),
    decreases b,
{
    if a < b {
        lemma_pow3_mono(a, (b - 1) as nat);
        if b > 0 {
            assert(pow3((b - 1) as nat) >= 1) by {
                lemma_pow3_pos((b - 1) as nat);
            }
        }
    }
}

proof fn lemma_pow3_pos(k: nat)
    ensures
        pow3(k) >= 1,
    decreases k,
{
    if k > 0 {
        lemma_pow3_pos((k - 1) as nat);
    }
}

/// Three to the `k`-th power, computed.
fn pow3_u64(k: u32) -> (r: u64)
    requires
        k <= 40,
    ensures
        r == pow3(k as nat),
{
    proof {
        lemma_pow3_40();
    }
    let mut r: u64 = 1;
    let mut i: u32 = 0;
    while i < k
        invariant
            i <= k <= 40,
            r == pow3(i as nat),
        decreases k - i,
    {
        proof {
            lemma_pow3_40();
            lemma_pow3_mono(i as nat + 1, 40);
        }
        r = r * 3;
        i = i + 1;
    }
    r
}

/// The operator encoded by bit `position` of a binary variation: a set
/// bit multiplies, a clear bit adds.
pub open spec fn op_of_bit(data: u64, position: u32) -> Operator {
    if data & (1u64 << position) == (1u64 << position) {
        Operator::Multiply
    } else {
        Operator::Add
    }
}

/// The operator encoded by the lowest ternary digit of a variation.
pub open spec fn op_of_trit(data: u64) -> Operator {
    if data % 3 == 0 {
        Operator::Add
    } else if data % 3 == 1 {
        Operator::Multiply
    } else {
        Operator::Concatenate
    }
}

/// Enumerates all add/multiply operator assignments of a given length
/// as successive binary variations.
pub struct OperatorPart1Permutation {
    pub length: u32,
    pub variation: u64,
}

/// One add/multiply operator assignment, read off bit by bit.
pub struct OperatorPart1Iter {
    pub length: u32,
    pub data: u64,
    pub position: u32,
}

/// Enumerates all add/multiply/concatenate operator assignments of a
/// given length as successive ternary variations.
pub struct OperatorPart2Permutation {
    pub length: u32,
    pub variation: u64,
}

/// One add/multiply/concatenate operator assignment, read off one
/// ternary digit at a time.
pub struct OperatorPart2Iter {
    pub step: u32,
    pub data: u64,
}

impl Operator {
    /// Start enumerating the add/multiply assignments of `length`
    /// operators.
    pub fn permute_part_1(length: u32) -> (r: OperatorPart1Permutation)
        ensures
            r.length == length,
            r.variation == 0,
    {
        OperatorPart1Permutation { length, variation: 0 }
    }

    /// Start enumerating the add/multiply/concatenate assignments of
    /// `length` operators.
    pub fn permute_part_2(length: u32) -> (r: OperatorPart2Permutation)
        ensures
            r.length == length,
            r.variation == 0,
    {
        OperatorPart2Permutation { length, variation: 0 }
    }
}

impl OperatorPart1Permutation {
    /// The next binary variation, or `None` once all `2^length`
    /// assignments have been handed out.
    pub fn next(&mut self) -> (r: Option<OperatorPart1Iter>)
        requires
            old(self).length < 64,
        ensures
            final(self).length == old(self).length,
            old(self).variation >> old(self).length != 0 ==> r is None && final(self).variation
                == old(self).variation,
            old(self).variation >> old(self).length == 0 ==> r == Some(
                OperatorPart1Iter {
                    length: old(self).length,
                    data: old(self).variation,
                    position: 0,
                },
            ) && final(self).variation == old(self).variation + 1,
    {
        let v = self.variation;
        let l = self.length;
        if (v >> l) != 0 {
            return None;
        }
        proof {
            assert(v < 0xFFFFFFFFFFFFFFFFu64) by (bit_vector)
                requires
                    v >> l == 0u64,
                    l < 64u32,
            ;
        }
        let data = self.variation;
        self.variation = self.variation + 1;
        Some(OperatorPart1Iter { length: self.length, data, position: 0 })
    }
}

impl OperatorPart1Iter {
    /// The operator at the current position, or `None` past the end.
    pub fn next(&mut self) -> (r: Option<Operator>)
        requires
            old(self).length < 64,
        ensures
            final(self).length == old(self).length,
            final(self).data == old(self).data,
            old(self).position >= old(self).length ==> r is None && final(self).position == old(self).position,
            old(self).position < old(self).length ==> r == Some(
                op_of_bit(old(self).data, old(self).position),
            ) && final(self).position == old(self).position + 1,
    {
        if self.position >= self.length {
            return None;
        }
        let msk = 1u64 << self.position;
        let op = if self.data & msk == msk {
            Operator::Multiply
        } else {
            Operator::Add
        };
        self.position = self.position + 1;
        Some(op)
    }
}

impl OperatorPart2Permutation {
    /// The next ternary variation, or `None` once all `3^length`
    /// assignments have been handed out.
    pub fn next(&mut self) -> (r: Option<OperatorPart2Iter>)
        requires
            old(self).length <= 40,
        ensures
            final(self).length == old(self).length,
            old(self).variation >= pow3(old(self).length as nat) ==> r is None && final(self).variation == old(self).variation,
            old(self).variation < pow3(old(self).length as nat) ==> r == Some(
                OperatorPart2Iter { step: old(self).length, data: old(self).variation },
            ) && final(self).variation == old(self).variation + 1,
    {
        let bound = pow3_u64(self.length);
        if self.variation >= bound {
            return None;
        }
        proof {
            lemma_pow3_40();
            lemma_pow3_mono(self.length as nat, 40);
        }
        let data = self.variation;
        self.variation = self.variation + 1;
        Some(OperatorPart2Iter { step: self.length, data })
    }
}

impl OperatorPart2Iter {
    /// The operator encoded by the next ternary digit, or `None` once
    /// all positions have been read.
    pub fn next(&mut self) -> (r: Option<Operator>)
        ensures
            old(self).step == 0 ==> r is None && *final(self) == *old(self),
            old(self).step > 0 ==> r == Some(op_of_trit(old(self).data)) && final(self).step == old(self).step - 1 && final(self).data == old(self).data / 3,
    {
        if self.step == 0 {
            return None;
        }
        self.step = self.step - 1;
        let op = match self.data % 3 {
            0 => Operator::Add,
            1 => Operator::Multiply,
            _ => Operator::Concatenate,
        };
        self.data = self.data / 3;
        Some(op)
    }
}

/// The add/multiply assignment encoded by the low `len` bits of a
/// binary variation.
pub open spec fn ops_of_bits(data: u64, len: int) -> Seq<Operator> {
    Seq::new(len as nat, |i: int| op_of_bit(data, i as u32))
}

/// The assignment encoded by the low `len` ternary digits of a
/// variation, least significant digit first.
pub open spec fn ops_of_trits(data: u64, len: int) -> Seq<Operator>
    decreases len,
{
    if len <= 0 {
        Seq::empty()
    } else {
        seq![op_of_trit(data)] + ops_of_trits(data / 3, len - 1)
    }
}

impl Equation {
    /// Whether some add/multiply assignment makes the operands evaluate
    /// to the target value, found by trying every binary variation.
    pub fn solvable_part_1(&self) -> (r: bool)
        requires
            1 <= self.operands@.len() <= 64,
            forall|v: u64|
                v >> ((self.operands@.len() - 1) as u64) == 0 ==> eval_fits(
                    self.operands@,
                    #[trigger] ops_of_bits(v, self.operands@.len() - 1),
                ),
        ensures
            r == exists|v: u64|
                v >> ((self.operands@.len() - 1) as u64) == 0 && eval_spec(
                    self.operands@,
                    #[trigger] ops_of_bits(v, self.operands@.len() - 1),
                ) == self.value,
    {
        let k: u32 = (self.operands.len() - 1) as u32;
        let ghost klen: int = self.operands@.len() - 1;
        let mut perm = Operator::permute_part_1(k);
        loop
            invariant
                k == klen,
                0 <= klen <= 63,
                1 <= self.operands@.len() <= 64,
                klen == self.operands@.len() - 1,
                forall|v: u64|
                    v >> (klen as u64) == 0 ==> eval_fits(
                        self.operands@,
                        #[trigger] ops_of_bits(v, klen),
                    ),
                perm.length == k,
                perm.variation <= 1u64 << k,
                forall|v: u64|
                    v < perm.variation ==> eval_spec(
                        self.operands@,
                        #[trigger] ops_of_bits(v, klen),
                    ) != self.value,
            decreases (1u64 << k) + 1 - perm.variation,
        {
            let ghost var_before: u64 = perm.variation;
            match perm.next() {
                None => {
                    proof {
                        assert forall|v: u64| #[trigger] (v >> (klen as u64)) == 0 implies v
                            < var_before by {
                            let kk = k;
                            assert(v >> (kk as u64) == 0 && var_before >> kk != 0u64 && kk < 64u32
                                ==> v < var_before) by (bit_vector);
                        }
                    }
                    return false;
                },
                Some(mut it) => {
                    proof {
                        let kk = k;
                        let vb = var_before;
                        assert(vb >> kk == 0u64 && kk < 64u32 ==> vb < (1u64 << kk) && vb >> (
                        kk as u64) == 0u64) by (bit_vector);
                    }
                    let v = it.data;
                    let mut ops: Vec<Operator> = Vec::new();
                    loop
                        invariant
                            it.length == k,
                            it.data == v,
                            0 <= klen <= 63,
                            k == klen,
                            it.position <= k,
                            ops@.len() == it.position,
                            forall|t: int| 0 <= t < ops@.len() ==> ops@[t] == op_of_bit(v, t as u32),
                        ensures
                            ops@.len() == klen,
                            forall|t: int| 0 <= t < ops@.len() ==> ops@[t] == op_of_bit(v, t as u32),
                        decreases k - it.position,
                    {
                        match it.next() {
                            None => {
                                break ;
                            },
                            Some(op) => {
                                ops.push(op);
                            },
                        }
                    }
                    proof {
                        assert(ops@ =~= ops_of_bits(v, klen));
                    }
                    if self.is_valid(&ops) {
                        return true;
                    }
                },
            }
        }
    }

    /// Whether some add/multiply/concatenate assignment makes the
    /// operands evaluate to the target value, found by trying every
    /// ternary variation.
    pub fn solvable_part_2(&self) -> (r: bool)
        requires
            1 <= self.operands@.len() <= 41,
            forall|v: u64|
                v < pow3((self.operands@.len() - 1) as nat) ==> eval_fits(
                    self.operands@,
                    #[trigger] ops_of_trits(v, self.operands@.len() - 1),
                ),
        ensures
            r == exists|v: u64|
                v < pow3((self.operands@.len() - 1) as nat) && eval_spec(
                    self.operands@,
                    #[trigger] ops_of_trits(v, self.operands@.len() - 1),
                ) == self.value,
    {
        let k: u32 = (self.operands.len() - 1) as u32;
        let ghost klen: int = self.operands@.len() - 1;
        let mut perm = Operator::permute_part_2(k);
        proof {
            lemma_pow3_pos(klen as nat);
        }
        loop
            invariant
                k == klen,
                0 <= klen <= 40,
                klen == self.operands@.len() - 1,
                1 <= self.operands@.len() <= 41,
                forall|v: u64|
                    v < pow3(klen as nat) ==> eval_fits(
                        self.operands@,
                        #[trigger] ops_of_trits(v, klen),
                    ),
                perm.length == k,
                perm.variation <= pow3(klen as nat),
                forall|v: u64|
                    v < perm.variation ==> eval_spec(
                        self.operands@,
                        #[trigger] ops_of_trits(v, klen),
                    ) != self.value,
            decreases pow3(klen as nat) + 1 - perm.variation,
        {
            let ghost var_before: u64 = perm.variation;
            match perm.next() {
                None => {
                    return false;
                },
                Some(mut it) => {
                    let v = it.data;
                    let mut ops: Vec<Operator> = Vec::new();
                    loop
                        invariant
                            it.step <= k,
                            k == klen,
                            0 <= klen <= 40,
                            ops@.len() + it.step == klen,
                            ops@ + ops_of_trits(it.data, it.step as int) == ops_of_trits(v, klen),
                        ensures
                            ops@ == ops_of_trits(v, klen),
                        decreases it.step,
                    {
                        let ghost data_before: u64 = it.data;
                        let ghost step_before: u32 = it.step;
                        match it.next() {
                            None => {
                                proof {
                                    assert(ops_of_trits(data_before, 0) =~= Seq::<
                                        Operator,
                                    >::empty());
                                    assert(ops@ + ops_of_trits(data_before, 0) =~= ops@);
                                }
                                break ;
                            },
                            Some(op) => {
                                ops.push(op);
                                proof {
                                    assert(ops_of_trits(data_before, step_before as int) =~= seq![
                                        op_of_trit(data_before),
                                    ] + ops_of_trits(data_before / 3, step_before - 1));
                                    assert(ops@ + ops_of_trits(it.data, it.step as int)
                                        =~= ops_of_trits(v, klen));
                                }
                            },
                        }
                    }
                    if self.is_valid(&ops) {
                        return true;
                    }
                },
            }
        }
    }

    /// Whether this operator assignment makes the operands evaluate to
    /// the target value.
    pub fn is_valid(&self, operators: &Vec<Operator>) -> (r: bool)
        requires
            eval_fits(self.operands@, operators@),
        ensures
            r == (eval_spec(self.operands@, operators@) == self.value),
    {
        eval(&self.operands, operators) == self.value
    }
}

} // verus!
