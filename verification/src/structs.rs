//! Action model: the four action kinds, the `Action` value carried through
//! game histories, and the stable one-byte identifier table used for
//! serialization and abstraction keys.
use vstd::prelude::*;

verus! {

/// Stable one-byte encoding of an `Action`.
pub type ActionIdentifier = u8;

/// The kind of a player action. `Bet` is the only kind that carries a
/// pot-multiplier; the other kinds always carry a `raise_amount` of zero.
/// Kinds order by declaration, so actions compare by kind first and then
/// by size.
#[derive(Eq, Hash, Clone, Copy, Debug, PartialEq, PartialOrd, Ord, Structural)]
pub enum ActionType {
    Fold,
    Call,
    Bet,
    AllIn,
}

/// Character-wise string comparison, so that contracts can speak of the
/// character view of both sides.
fn str_equal(a: &str, b: &str) -> (r: bool)
    ensures
        r == (a@ == b@),
{
    let n = a.unicode_len();
    if n != b.unicode_len() {
        assert(a@ != b@);
        return false;
    }
    let mut i: usize = 0;
    while i < n
        invariant
            i <= n,
            n == a@.len() && n == b@.len(),
            forall|j: int| 0 <= j < i ==> a@[j] == b@[j],
        decreases n - i,
    {
        if a.get_char(i) != b.get_char(i) {
            assert(a@ != b@);
            return false;
        }
        i += 1;
    }
    proof {
        assert(a@ =~= b@);
    }
    true
}

impl ActionType {
    /// Spec-level name of each kind, as a sequence of characters.
    pub open spec fn spec_name(self) -> Seq<char> {
        match self {
            ActionType::Fold => "fold"@,
            ActionType::Call => "call"@,
            ActionType::Bet => "bet"@,
            ActionType::AllIn => "all_in"@,
        }
    }

    /// Parses the lower-case snake-case name of an action kind.
    pub fn from_string(action_type_string: &str) -> (r: Option<ActionType>)
        ensures
            r matches Some(t) ==> action_type_string@ == t.spec_name(),
            r is None ==> (forall|t: ActionType| action_type_string@ != t.spec_name()),
    {
        proof {
            reveal_strlit("fold");
            reveal_strlit("call");
            reveal_strlit("bet");
            reveal_strlit("all_in");
        }
        if str_equal(action_type_string, "fold") {
            Some(ActionType::Fold)
        } else if str_equal(action_type_string, "call") {
            Some(ActionType::Call)
        } else if str_equal(action_type_string, "bet") {
            Some(ActionType::Bet)
        } else if str_equal(action_type_string, "all_in") {
            Some(ActionType::AllIn)
        } else {
            assert(forall|t: ActionType| action_type_string@ != t.spec_name()) by {
                assert(ActionType::Fold.spec_name() == "fold"@);
                assert(ActionType::Call.spec_name() == "call"@);
                assert(ActionType::Bet.spec_name() == "bet"@);
                assert(ActionType::AllIn.spec_name() == "all_in"@);
            }
            None
        }
    }

    /// The lower-case snake-case name of this action kind.
    pub fn to_string(&self) -> (r: String)
        ensures
            r@ == self.spec_name(),
    {
        match self {
            ActionType::Fold => "fold".to_owned(),
            ActionType::Call => "call".to_owned(),
            ActionType::Bet => "bet".to_owned(),
            ActionType::AllIn => "all_in".to_owned(),
        }
    }
}

/// The decimal digit character of `d`.
pub open spec fn spec_digit_char(d: int) -> char {
    seq!['0', '1', '2', '3', '4', '5', '6', '7', '8', '9'][d]
}

/// The decimal representation of a non-negative number, without leading
/// zeroes.
pub open spec fn spec_decimal_string(v: int) -> Seq<char>
    decreases v,
{
    if v < 10 {
        seq![spec_digit_char(v)]
    } else {
        spec_decimal_string(v / 10).push(spec_digit_char(v % 10))
    }
}

/// The display name of a pot multiplier given in hundredths: the whole
/// part, then the fractional part with trailing zeroes stripped.
pub open spec fn spec_multiplier_string(raise: u16) -> Seq<char> {
    let whole = raise as int / 100;
    let frac = raise as int % 100;
    if frac == 0 {
        spec_decimal_string(whole)
    } else if frac % 10 == 0 {
        spec_decimal_string(whole).push('.').push(spec_digit_char(frac / 10))
    } else {
        spec_decimal_string(whole).push('.').push(spec_digit_char(frac / 10)).push(
            spec_digit_char(frac % 10))
    }
}

/// The variant name of an action kind.
pub open spec fn spec_kind_name(t: ActionType) -> Seq<char> {
    match t {
        ActionType::Fold => "Fold"@,
        ActionType::Call => "Call"@,
        ActionType::Bet => "Bet"@,
        ActionType::AllIn => "AllIn"@,
    }
}

/// The display form of an action: its kind, and for a sized action the
/// pot multiplier after " x".
pub open spec fn spec_action_string(a: Action) -> Seq<char> {
    if a.raise_amount != 0 {
        spec_kind_name(a.action_type) + " x"@ + spec_multiplier_string(a.raise_amount)
    } else {
        spec_kind_name(a.action_type)
    }
}

/// One decimal digit as a string slice.
fn digit_str(d: u16) -> (r: &'static str)
    requires
        d < 10,
    ensures
        r@ =~= seq![spec_digit_char(d as int)],
{
    proof {
        reveal_strlit("0");
        reveal_strlit("1");
        reveal_strlit("2");
        reveal_strlit("3");
        reveal_strlit("4");
        reveal_strlit("5");
        reveal_strlit("6");
        reveal_strlit("7");
        reveal_strlit("8");
        reveal_strlit("9");
    }
    if d == 0 {
        "0"
    } else if d == 1 {
        "1"
    } else if d == 2 {
        "2"
    } else if d == 3 {
        "3"
    } else if d == 4 {
        "4"
    } else if d == 5 {
        "5"
    } else if d == 6 {
        "6"
    } else if d == 7 {
        "7"
    } else if d == 8 {
        "8"
    } else {
        "9"
    }
}

/// Appends the decimal representation of `v` to `s`.
fn push_decimal(s: &mut String, v: u16)
    ensures
        final(s)@ == old(s)@ + spec_decimal_string(v as int),
    decreases v,
{
    if v >= 10 {
        push_decimal(s, v / 10);
    }
    s.append(digit_str(v % 10));
    proof {
        assert(s@ =~= old(s)@ + spec_decimal_string(v as int));
    }
}

/// One player action. `raise_amount` is a pot multiplier in hundredths
/// (134 means 1.34 times the pot) and is meaningful only when
/// `action_type` is `Bet`. Actions hash, and compare totally by kind and
/// size.
#[derive(Eq, Hash, Clone, Copy, Debug, PartialEq, PartialOrd, Ord, Structural)]
pub struct Action {
    pub action_type: ActionType,
    pub raise_amount: u16,
}

impl Action {
    /// The canonical identifier-to-action table, as a spec-level function.
    /// Identifiers 0 to 18 are assigned; all other bytes are unassigned.
    pub open spec fn spec_from_identifier(id: ActionIdentifier) -> Option<Action> {
        if id == 0 {
            Some(Action { action_type: ActionType::Fold, raise_amount: 0 })
        } else if id == 1 {
            Some(Action { action_type: ActionType::Call, raise_amount: 0 })
        } else if id == 2 {
            Some(Action { action_type: ActionType::AllIn, raise_amount: 0 })
        } else if 3 <= id && id <= 18 {
            Some(Action { action_type: ActionType::Bet, raise_amount: Self::spec_bet_table(id as int) })
        } else {
            None
        }
    }

    /// The bet sizes (pot multipliers in hundredths) of identifiers 3 to 18.
    pub open spec fn spec_bet_table(id: int) -> u16 {
        seq![0u16, 25, 50, 75, 80, 100, 134, 150, 200, 400, 700, 800, 1000, 1300, 1500, 2500][id - 3]
    }

    /// Looks an identifier up in the canonical table.
    pub fn from_identifier(id: ActionIdentifier) -> (r: Option<Action>)
        ensures
            r == Self::spec_from_identifier(id),
    {
        let bets: [u16; 16] = [0, 25, 50, 75, 80, 100, 134, 150, 200, 400, 700, 800, 1000, 1300, 1500, 2500];
        if id == 0 {
            Some(Action { action_type: ActionType::Fold, raise_amount: 0 })
        } else if id == 1 {
            Some(Action { action_type: ActionType::Call, raise_amount: 0 })
        } else if id == 2 {
            Some(Action { action_type: ActionType::AllIn, raise_amount: 0 })
        } else if id <= 18 {
            let m = bets[(id - 3) as usize];
            assert(m == Self::spec_bet_table(id as int));
            Some(Action { action_type: ActionType::Bet, raise_amount: m })
        } else {
            None
        }
    }

    /// The identifier of this action in the canonical table, if it has one.
    /// This is the inverse of `from_identifier` on assigned identifiers.
    pub fn into_identifier(&self) -> (r: Option<ActionIdentifier>)
        ensures
            r matches Some(id) ==> Self::spec_from_identifier(id) == Some(*self),
            r is None ==> (forall|id: ActionIdentifier| Self::spec_from_identifier(id) != Some(*self)),
    {
        match self.action_type {
            ActionType::Fold => {
                if self.raise_amount == 0 {
                    Some(0)
                } else {
                    None
                }
            },
            ActionType::Call => {
                if self.raise_amount == 0 {
                    Some(1)
                } else {
                    None
                }
            },
            ActionType::AllIn => {
                if self.raise_amount == 0 {
                    Some(2)
                } else {
                    None
                }
            },
            ActionType::Bet => {
                let bets: [u16; 16] = [0, 25, 50, 75, 80, 100, 134, 150, 200, 400, 700, 800, 1000, 1300, 1500, 2500];
                let mut i: usize = 0;
                while i < 16
                    invariant
                        i <= 16,
                        self.action_type is Bet,
                        forall|j: int| 0 <= j < i ==> #[trigger] bets[j] != self.raise_amount,
                        forall|j: int| 0 <= j < 16 ==> #[trigger] bets[j] == Self::spec_bet_table(j + 3),
                    decreases 16 - i,
                {
                    if bets[i] == self.raise_amount {
                        return Some((i + 3) as u8);
                    }
                    i += 1;
                }
                assert forall|id: ActionIdentifier| Self::spec_from_identifier(id) != Some(*self) by {
                    if 3 <= id <= 18 {
                        assert(bets[id - 3] != self.raise_amount);
                        assert(bets[id - 3] == Self::spec_bet_table(id as int));
                    }
                }
                None
            },
        }
    }

    /// Parses a decimal identifier string, then looks the identifier up in
    /// the canonical table.
    pub fn from_string(value: &str) -> (r: Option<Action>)
        ensures
            r == (if value@.len() > 0 && crate::cards::spec_all_digits(value@)
                    && crate::cards::spec_decimal_value(value@) <= 255 {
                Self::spec_from_identifier(crate::cards::spec_decimal_value(value@) as u8)
            } else {
                None::<Action>
            }),
    {
        match crate::cards::parse_u8_decimal(value) {
            Some(id) => Self::from_identifier(id),
            None => None,
        }
    }

    /// The display form of this action: its kind, and for a sized bet the
    /// pot multiplier after " x" (134 hundredths print as "1.34", 150 as
    /// "1.5", 200 as "2").
    pub fn as_string(&self) -> (r: String)
        ensures
            r@ == spec_action_string(*self),
    {
        proof {
            reveal_strlit("Fold");
            reveal_strlit("Call");
            reveal_strlit("Bet");
            reveal_strlit("AllIn");
            reveal_strlit(" x");
            reveal_strlit(".");
        }
        let mut s = String::new();
        match self.action_type {
            ActionType::Fold => s.append("Fold"),
            ActionType::Call => s.append("Call"),
            ActionType::Bet => s.append("Bet"),
            ActionType::AllIn => s.append("AllIn"),
        }
        if self.raise_amount != 0 {
            s.append(" x");
            push_decimal(&mut s, self.raise_amount / 100);
            let frac = self.raise_amount % 100;
            if frac != 0 {
                s.append(".");
                push_decimal(&mut s, frac / 10);
                if frac % 10 != 0 {
                    push_decimal(&mut s, frac % 10);
                }
            }
            proof {
                assert(s@ =~= spec_action_string(*self));
            }
        } else {
            proof {
                assert(s@ =~= spec_action_string(*self));
            }
        }
        s
    }

    /// True exactly when this action is a bet or raise.
    pub fn is_bet_raise(&self) -> (r: bool)
        ensures
            r == (self.action_type is Bet),
    {
        self.action_type == ActionType::Bet
    }
}

} // verus!
