use vstd::prelude::*;
use vstd::string::StringExecFns;
use crate::util::chars_of;
use crate::util::seq_eq_lit;
use crate::util::string_from_chars;
use crate::util::parse_u64;
use crate::util::scale_amount;
use crate::util::valid_u64_digits;
use crate::util::dec_val;
use crate::util::BASE_UNIT_FACTOR;

verus! {

/// The whitespace that surrounds a typed line and is ignored.
pub open spec fn is_space(c: char) -> bool {
    c == ' ' || c == '\t' || c == '\r' || c == '\n'
}

pub open spec fn trim_front(s: Seq<char>) -> Seq<char>
    decreases s.len(),
{
    if s.len() > 0 && is_space(s[0]) {
        trim_front(s.drop_first())
    } else {
        s
    }
}

pub open spec fn trim_back(s: Seq<char>) -> Seq<char>
    decreases s.len(),
{
    if s.len() > 0 && is_space(s.last()) {
        trim_back(s.drop_last())
    } else {
        s
    }
}

/// A line with its surrounding whitespace removed.
pub open spec fn trimmed(s: Seq<char>) -> Seq<char> {
    trim_back(trim_front(s))
}

/// The first space-delimited word of a line.
pub open spec fn head_of(s: Seq<char>) -> Seq<char>
    decreases s.len(),
{
    if s.len() == 0 || s[0] == ' ' {
        Seq::empty()
    } else {
        seq![s[0]] + head_of(s.drop_first())
    }
}

/// Everything after the first space, if the line has one.
pub open spec fn rest_of(s: Seq<char>) -> Option<Seq<char>>
    decreases s.len(),
{
    if s.len() == 0 {
        None
    } else if s[0] == ' ' {
        Some(s.drop_first())
    } else {
        rest_of(s.drop_first())
    }
}

proof fn lemma_trim_front_at(s: Seq<char>, lo: int)
    requires
        0 <= lo <= s.len(),
        forall|j: int| 0 <= j < lo ==> is_space(#[trigger] s[j]),
        lo == s.len() || !is_space(s[lo]),
    ensures
        trim_front(s) == s.skip(lo),
    decreases lo,
{
    if lo == 0 {
        assert(s.skip(0) =~= s);
    } else {
        let t = s.drop_first();
        assert forall|j: int| 0 <= j < lo - 1 implies is_space(#[trigger] t[j]) by {
            assert(t[j] == s[j + 1]);
        }
        lemma_trim_front_at(t, lo - 1);
        assert(t.skip(lo - 1) =~= s.skip(lo));
    }
}

proof fn lemma_trim_back_at(s: Seq<char>, hi: int)
    requires
        0 <= hi <= s.len(),
        forall|j: int| hi <= j < s.len() ==> is_space(#[trigger] s[j]),
        hi == 0 || !is_space(s[hi - 1]),
    ensures
        trim_back(s) == s.take(hi),
    decreases s.len() - hi,
{
    if hi == s.len() {
        assert(s.take(hi) =~= s);
    } else {
        let t = s.drop_last();
        assert forall|j: int| hi <= j < t.len() implies is_space(#[trigger] t[j]) by {
            assert(t[j] == s[j]);
        }
        lemma_trim_back_at(t, hi);
        assert(t.take(hi) =~= s.take(hi));
    }
}

proof fn lemma_head_rest_at(s: Seq<char>, i: int)
    requires
        0 <= i <= s.len(),
        forall|j: int| 0 <= j < i ==> #[trigger] s[j] != ' ',
        i == s.len() || s[i] == ' ',
    ensures
        head_of(s) == s.take(i),
        i == s.len() ==> rest_of(s) is None,
        i < s.len() ==> rest_of(s) == Some(s.skip(i + 1)),
    decreases i,
{
    if i == 0 {
        assert(s.take(0) =~= Seq::<char>::empty());
    } else {
        let t = s.drop_first();
        assert forall|j: int| 0 <= j < i - 1 implies #[trigger] t[j] != ' ' by {
            assert(t[j] == s[j + 1]);
        }
        lemma_head_rest_at(t, i - 1);
        assert(seq![s[0]] + t.take(i - 1) =~= s.take(i));
        if i < s.len() {
            assert(t.skip(i) =~= s.skip(i + 1));
        }
    }
}

/// One parsed line of user input.
#[derive(Debug)]
pub enum Command {
    Empty,
    Help,
    Dial { addr: String },
    DialUsage,
    Swap { zero_for_one: bool, amount: String },
    Status,
    Chat { content: String },
}

/// Removes the surrounding whitespace of a line.
fn trim_chars(v: &Vec<char>) -> (r: Vec<char>)
    ensures
        r@ == trimmed(v@),
{
    let n = v.len();
    let mut lo: usize = 0;
    while lo < n && (v[lo] == ' ' || v[lo] == '\t' || v[lo] == '\r' || v[lo] == '\n')
        invariant
            lo <= n,
            n == v@.len(),
            forall|j: int| 0 <= j < lo ==> is_space(#[trigger] v@[j]),
        decreases n - lo,
    {
        lo += 1;
    }
    let mut hi: usize = n;
    while hi > lo && (v[hi - 1] == ' ' || v[hi - 1] == '\t' || v[hi - 1] == '\r' || v[hi - 1]
        == '\n')
        invariant
            lo <= hi <= n,
            n == v@.len(),
            forall|j: int| 0 <= j < lo ==> is_space(#[trigger] v@[j]),
            lo == n || !is_space(v@[lo as int]),
            forall|j: int| hi <= j < n ==> is_space(#[trigger] v@[j]),
        decreases hi,
    {
        hi -= 1;
    }
    let mut r: Vec<char> = Vec::new();
    let mut i: usize = lo;
    while i < hi
        invariant
            lo <= i <= hi <= n,
            n == v@.len(),
            r@ == v@.subrange(lo as int, i as int),
        decreases hi - i,
    {
        r.push(v[i]);
        proof {
            assert(v@.subrange(lo as int, i as int + 1) =~= v@.subrange(lo as int, i as int).push(
                v@[i as int],
            ));
        }
        i += 1;
    }
    proof {
        lemma_trim_front_at(v@, lo as int);
        let t = v@.skip(lo as int);
        assert forall|j: int| hi - lo <= j < t.len() implies is_space(#[trigger] t[j]) by {
            assert(t[j] == v@[lo + j]);
        }
        if hi > lo {
            assert(t[hi - lo - 1] == v@[hi - 1]);
        }
        lemma_trim_back_at(t, hi - lo);
        assert(t.take(hi - lo) =~= v@.subrange(lo as int, hi as int));
    }
    r
}

/// Parses one line of user input into the command it names. The first
/// space-delimited word selects the command; anything unrecognized is chat.
pub fn parse_command(line: &str) -> (r: Command)
    ensures
        ({
            let t = trimmed(line@);
            let h = head_of(t);
            &&& (t.len() == 0 ==> r is Empty)
            &&& (t.len() > 0 && h == "help"@ ==> r is Help)
            &&& (t.len() > 0 && h == "dial"@ ==> match rest_of(t) {
                Some(a) => (r matches Command::Dial { addr } && addr@ == a),
                None => r is DialUsage,
            })
            &&& (t.len() > 0 && h == "swap"@ ==> (r matches Command::Swap {
                zero_for_one,
                amount,
            } && zero_for_one == true && amount@ == (match rest_of(t) {
                Some(a) => a,
                None => "1"@,
            })))
            &&& (t.len() > 0 && h == "swap-b"@ ==> (r matches Command::Swap {
                zero_for_one,
                amount,
            } && zero_for_one == false && amount@ == (match rest_of(t) {
                Some(a) => a,
                None => "1"@,
            })))
            &&& (t.len() > 0 && h == "status"@ ==> r is Status)
            &&& (t.len() > 0 && h != "help"@ && h != "dial"@ && h != "swap"@ && h != "swap-b"@
                && h != "status"@ ==> (r matches Command::Chat { content } && content@ == t))
        }),
{
    let v = chars_of(line);
    let t = trim_chars(&v);
    let n = t.len();
    if n == 0 {
        return Command::Empty;
    }
    let mut i: usize = 0;
    while i < n && t[i] != ' '
        invariant
            i <= n,
            n == t@.len(),
            forall|j: int| 0 <= j < i ==> #[trigger] t@[j] != ' ',
        decreases n - i,
    {
        i += 1;
    }
    proof {
        lemma_head_rest_at(t@, i as int);
        assert(t@.take(i as int) =~= t@.subrange(0, i as int));
        reveal_strlit("help");
        reveal_strlit("dial");
        reveal_strlit("swap");
        reveal_strlit("swap-b");
        reveal_strlit("status");
        assert("help"@.len() == 4 && "dial"@.len() == 4 && "swap"@.len() == 4 && "swap-b"@.len()
            == 6 && "status"@.len() == 6);
        assert("help"@[0] == 'h' && "dial"@[0] == 'd' && "swap"@[0] == 's' && "swap-b"@[1] == 'w'
            && "status"@[1] == 't');
        assert("help"@ != "dial"@ && "help"@ != "swap"@ && "help"@ != "swap-b"@ && "help"@
            != "status"@);
        assert("dial"@ != "swap"@ && "dial"@ != "swap-b"@ && "dial"@ != "status"@);
        assert("swap"@ != "swap-b"@ && "swap"@ != "status"@);
        assert("swap-b"@ != "status"@);
    }
    let is_help = seq_eq_lit(&t, 0, i, "help");
    let is_dial = seq_eq_lit(&t, 0, i, "dial");
    let is_swap = seq_eq_lit(&t, 0, i, "swap");
    let is_swap_b = seq_eq_lit(&t, 0, i, "swap-b");
    let is_status = seq_eq_lit(&t, 0, i, "status");
    if is_help {
        Command::Help
    } else if is_dial {
        if i < n {
            let addr = string_from_chars(&t, i + 1, n);
            proof {
                assert(t@.subrange(i as int + 1, n as int) =~= t@.skip(i as int + 1));
            }
            Command::Dial { addr }
        } else {
            Command::DialUsage
        }
    } else if is_swap || is_swap_b {
        let amount = if i < n {
            let a = string_from_chars(&t, i + 1, n);
            proof {
                assert(t@.subrange(i as int + 1, n as int) =~= t@.skip(i as int + 1));
            }
            a
        } else {
            String::from_str("1")
        };
        Command::Swap { zero_for_one: is_swap, amount }
    } else if is_status {
        Command::Status
    } else {
        let content = string_from_chars(&t, 0, n);
        proof {
            assert(t@.subrange(0, n as int) =~= t@);
        }
        Command::Chat { content }
    }
}

/// Validates and scales a swap amount: a whole-token decimal amount becomes
/// base units (times ten to the eighteenth). Rejected input causes no
/// on-chain work at all.
pub fn prepare_swap_amount(amount: &str) -> (r: Option<u128>)
    ensures
        r matches Some(v) ==> valid_u64_digits(amount@) && v == dec_val(amount@)
            * BASE_UNIT_FACTOR as int,
        r is None ==> !valid_u64_digits(amount@),
{
    match parse_u64(amount) {
        Some(n) => Some(scale_amount(n)),
        None => None,
    }
}

} // verus!
