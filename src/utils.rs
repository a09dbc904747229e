use vstd::prelude::*;

verus! {

/// Largest magnitude bit pattern (sign bit cleared) that is not a NaN: the one of infinity.
pub const INFINITY_MAGNITUDE: u64 = 0x7FF0_0000_0000_0000;

/// The sign bit of a binary64 bit pattern.
pub const SIGN_BIT: u64 = 0x8000_0000_0000_0000;

/// Whether an IEEE-754 binary64 bit pattern encodes a NaN.
pub open spec fn is_nan_bits(b: u64) -> bool {
    b % SIGN_BIT > INFINITY_MAGNITUDE
}

/// Position of a non-NaN binary64 bit pattern on the real line: `x < y` as
/// numbers exactly when `float_rank(x) < float_rank(y)`, and the two zeros
/// share one rank.
pub open spec fn float_rank(b: u64) -> int {
    if b >= SIGN_BIT {
        SIGN_BIT - (b - SIGN_BIT)
    } else {
        SIGN_BIT + b
    }
}

/// A value that takes part in a maximum: any float but a NaN.
pub open spec fn competes(b: u64) -> bool {
    !is_nan_bits(b)
}

/// `k` is the first position of a greatest eligible value of `s`.
pub open spec fn is_first_argmax(s: Seq<u64>, k: int) -> bool {
    &&& 0 <= k < s.len()
    &&& competes(s[k])
    &&& forall|i: int| 0 <= i < k && competes(#[trigger] s[i]) ==> float_rank(s[i]) < float_rank(s[k])
    &&& forall|i: int| k < i < s.len() && competes(#[trigger] s[i]) ==> float_rank(s[i]) <= float_rank(s[k])
}

/// Whether the float with bits `b` is strictly greater than the one with bits `c`.
pub open spec fn float_gt(b: u64, c: u64) -> bool {
    !is_nan_bits(b) && !is_nan_bits(c) && float_rank(b) > float_rank(c)
}

fn nan_bits(b: u64) -> (r: bool)
    ensures
        r == is_nan_bits(b),
{
    b % SIGN_BIT > INFINITY_MAGNITUDE
}

fn rank(b: u64) -> (r: u64)
    ensures
        r == float_rank(b),
{
    if b >= SIGN_BIT {
        SIGN_BIT - (b - SIGN_BIT)
    } else {
        SIGN_BIT + b
    }
}

/// Whether an IEEE-754 binary64 bit pattern encodes an infinity of either sign.
pub open spec fn is_infinite_bits(b: u64) -> bool {
    b % SIGN_BIT == INFINITY_MAGNITUDE
}

/// Whether the float with bits `b` is an infinity, as `f64::is_infinite` says.
pub fn is_infinite(b: u64) -> (r: bool)
    ensures
        r == is_infinite_bits(b),
{
    b % SIGN_BIT == INFINITY_MAGNITUDE
}

/// Whether the float with bits `b` compares greater than the one with bits `c`
/// under IEEE-754 rules: false whenever either is a NaN, and `0.0 > -0.0` is false.
pub fn greater_than(b: u64, c: u64) -> (r: bool)
    ensures
        r == float_gt(b, c),
{
    !nan_bits(b) && !nan_bits(c) && rank(b) > rank(c)
}

/// Position of the first greatest value among floats given as `f64::to_bits`
/// patterns. NaNs take no part; `None` when every value is a NaN.
pub fn select_argmax(collection: &[u64]) -> (r: Option<usize>)
    ensures
        r is None <==> (forall|i: int| 0 <= i < collection@.len() ==> !competes(#[trigger] collection@[i])),
        r matches Some(k) ==> is_first_argmax(collection@, k as int),
{
    let mut best: Option<usize> = None;
    let mut i: usize = 0;
    while i < collection.len()
        invariant
            i <= collection@.len(),
            best is None <==> (forall|j: int| 0 <= j < i ==> !competes(#[trigger] collection@[j])),
            best matches Some(k) ==> is_first_argmax(collection@.subrange(0, i as int), k as int),
        decreases collection@.len() - i,
    {
        let x = collection[i];
        let better = match best {
            None => !nan_bits(x),
            Some(k) => !nan_bits(x) && rank(x) > rank(collection[k]),
        };
        proof {
            let s = collection@.subrange(0, i as int);
            let t = collection@.subrange(0, i as int + 1);
            assert forall|j: int| 0 <= j < i implies #[trigger] t[j] == s[j] && s[j] == collection@[j] by {}
            assert(t[i as int] == x);
        }
        if better {
            best = Some(i);
        }
        i = i + 1;
    }
    proof {
        assert(collection@.subrange(0, collection@.len() as int) =~= collection@);
    }
    best
}

/// The character of a decimal digit.
pub open spec fn digit_char(d: nat) -> char {
    if d == 0 { '0' }
    else if d == 1 { '1' }
    else if d == 2 { '2' }
    else if d == 3 { '3' }
    else if d == 4 { '4' }
    else if d == 5 { '5' }
    else if d == 6 { '6' }
    else if d == 7 { '7' }
    else if d == 8 { '8' }
    else { '9' }
}

/// Decimal notation of `n`, without leading zeros.
pub open spec fn decimal(n: nat) -> Seq<char>
    decreases n,
{
    if n < 10 {
        seq![digit_char(n)]
    } else {
        decimal(n / 10).push(digit_char(n % 10))
    }
}

fn digit_str(d: u64) -> (r: &'static str)
    requires
        d < 10,
    ensures
        r@ == seq![digit_char(d as nat)],
{
    proof {
        reveal_strlit("0");
        reveal_strlit("1");
        reveal_strlit("2");
        reveal_strlit("3");
        reveal_strlit("4");
        reveal_strlit("5");
        reveal_strlit("6");
        reveal_strlit("7");
        reveal_strlit("8");
        reveal_strlit("9");
    }
    if d == 0 { "0" }
    else if d == 1 { "1" }
    else if d == 2 { "2" }
    else if d == 3 { "3" }
    else if d == 4 { "4" }
    else if d == 5 { "5" }
    else if d == 6 { "6" }
    else if d == 7 { "7" }
    else if d == 8 { "8" }
    else { "9" }
}

/// Appends the decimal notation of `n` to `s`.
pub fn push_decimal(s: &mut String, n: u64)
    ensures
        final(s)@ == old(s)@ + decimal(n as nat),
    decreases n,
{
    if n < 10 {
        s.append(digit_str(n));
    } else {
        push_decimal(s, n / 10);
        s.append(digit_str(n % 10));
        assert(decimal(n as nat) == decimal((n / 10) as nat).push(digit_char((n % 10) as nat)));
        assert(final(s)@ =~= old(s)@ + decimal(n as nat));
    }
}

/// A log line: the command, the arm's identity and a timestamp, separated by `;`.
pub open spec fn command_line(cmd: Seq<char>, ident: Seq<char>, timestamp: nat) -> Seq<char> {
    cmd + seq![';'] + ident + seq![';'] + decimal(timestamp)
}

/// Builds the log line of a command on an arm at a given time (milliseconds
/// since the Unix epoch), as `<cmd>;<ident>;<timestamp>`.
pub fn log_command(cmd: &str, ident: &str, timestamp: u64) -> (r: String)
    ensures
        r@ == command_line(cmd@, ident@, timestamp as nat),
{
    proof {
        reveal_strlit(";");
    }
    let mut line = String::from_str(cmd);
    line.append(";");
    line.append(ident);
    line.append(";");
    push_decimal(&mut line, timestamp);
    assert(line@ =~= command_line(cmd@, ident@, timestamp as nat));
    line
}

/// Milliseconds since the Unix epoch for a duration of `secs` seconds and
/// `millis` milliseconds, saturating at `u64::MAX`.
pub fn epoch_millis(secs: u64, millis: u32) -> (r: u64)
    requires
        millis < 1000,
    ensures
        secs * 1000 + millis <= u64::MAX ==> r == secs * 1000 + millis,
        secs * 1000 + millis > u64::MAX ==> r == u64::MAX,
{
    if secs <= u64::MAX / 1000 {
        assert(secs * 1000 <= u64::MAX) by (nonlinear_arith)
            requires
                secs <= u64::MAX / 1000,
        ;
        let base = secs * 1000;
        if base <= u64::MAX - millis as u64 {
            base + millis as u64
        } else {
            u64::MAX
        }
    } else {
        assert(secs * 1000 > u64::MAX) by (nonlinear_arith)
            requires
                secs > u64::MAX / 1000,
        ;
        u64::MAX
    }
}

/// Relies on `std::time::SystemTime::elapsed` applied to `UNIX_EPOCH`: the
/// whole seconds and the sub-second milliseconds (under 1000, as
/// `Duration::subsec_millis` documents) of the time since the epoch, or `None`
/// when the system clock stands before the epoch.
#[verifier::external_body]
fn clock_since_epoch() -> (r: Option<(u64, u32)>)
    ensures
        r matches Some(d) ==> d.1 < 1000,
{
    std::time::UNIX_EPOCH.elapsed().ok().map(|d| (d.as_secs(), d.subsec_millis()))
}

/// The current wall-clock time in milliseconds since the Unix epoch; 0 when
/// the system clock stands before the epoch.
pub fn timestamp() -> (r: u64) {
    match clock_since_epoch() {
        Some(d) => epoch_millis(d.0, d.1),
        None => 0,
    }
}

/// Failure to find an arm by its identity.
#[derive(Debug, Clone, PartialEq, Eq)]
pub struct ArmNotFound {
    /// The identity that no arm carries.
    pub ident: String,
}

impl ArmNotFound {
    /// Describes the failure as `arm <ident> not found`.
    pub fn message(&self) -> (r: String)
        ensures
            r@ == "arm "@ + self.ident@ + " not found"@,
    {
        let mut m = String::from_str("arm ");
        m.append(self.ident.as_str());
        m.append(" not found");
        m
    }
}

/// Whether some identity of `idents` equals `key`.
pub open spec fn carries(idents: Seq<Seq<char>>, key: Seq<char>) -> bool {
    exists|i: int| 0 <= i < idents.len() && idents[i] == key
}

/// The identities of a list of strings, as character sequences.
pub open spec fn ident_views(idents: Seq<String>) -> Seq<Seq<char>> {
    idents.map_values(|s: String| s@)
}

/// Whether no identity occurs twice in `idents`.
pub fn all_distinct(idents: &[String]) -> (r: bool)
    ensures
        r == distinct(ident_views(idents@)),
{
    let ghost v = ident_views(idents@);
    let mut i: usize = 0;
    while i < idents.len()
        invariant
            i <= idents@.len(),
            v == ident_views(idents@),
            forall|a: int, b: int| 0 <= a < i && 0 <= b < idents@.len() && a != b ==> v[a] != v[b],
        decreases idents@.len() - i,
    {
        let mut j: usize = 0;
        while j < idents.len()
            invariant
                i < idents@.len(),
                j <= idents@.len(),
                v == ident_views(idents@),
                forall|a: int, b: int| 0 <= a < i && 0 <= b < idents@.len() && a != b ==> v[a] != v[b],
                forall|b: int| 0 <= b < j && b != i ==> v[i as int] != v[b],
            decreases idents@.len() - j,
        {
            if j != i && idents[i] == idents[j] {
                assert(v[i as int] == v[j as int]);
                return false;
            }
            j = j + 1;
        }
        i = i + 1;
    }
    true
}

/// No identity occurs twice.
pub open spec fn distinct(idents: Seq<Seq<char>>) -> bool {
    forall|i: int, j: int| 0 <= i < idents.len() && 0 <= j < idents.len() && i != j ==> idents[i] != idents[j]
}

/// Position of the first arm whose identity is `ident`, or the identity that
/// no arm carries.
pub fn find_arm(idents: &[String], ident: &str) -> (r: Result<usize, ArmNotFound>)
    ensures
        r matches Ok(i) ==> i < idents@.len() && idents@[i as int]@ == ident@
            && forall|j: int| 0 <= j < i ==> (#[trigger] idents@[j])@ != ident@,
        r matches Err(e) ==> e.ident@ == ident@
            && forall|j: int| 0 <= j < idents@.len() ==> (#[trigger] idents@[j])@ != ident@,
{
    let key = String::from_str(ident);
    let mut i: usize = 0;
    while i < idents.len()
        invariant
            i <= idents@.len(),
            key@ == ident@,
            forall|j: int| 0 <= j < i ==> (#[trigger] idents@[j])@ != ident@,
        decreases idents@.len() - i,
    {
        if idents[i] == key {
            return Ok(i);
        }
        i = i + 1;
    }
    Err(ArmNotFound { ident: key })
}

} // verus!
