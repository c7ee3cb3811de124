use vstd::prelude::*;

verus! {

#[verifier::external_type_specification]
#[verifier::external_body]
#[verifier::reject_recursive_types(K)]
#[verifier::reject_recursive_types(V)]
pub struct ExJsonMap<K, V>(serde_json::Map<K, V>);

#[verifier::external_type_specification]
#[verifier::external_body]
pub struct ExJsonValue(serde_json::Value);

#[verifier::external_type_specification]
#[verifier::external_body]
pub struct ExJsonError(serde_json::Error);

/// The keys of a JSON object.
pub uninterp spec fn object_keys(m: serde_json::Map<String, serde_json::Value>) -> Set<Seq<char>>;

/// The keys of the JSON object whose text `b` is; `None` when `b` is not the
/// text of one JSON object.
pub uninterp spec fn parsed_object_keys(b: Seq<u8>) -> Option<Set<Seq<char>>>;

/// Relies on serde_json::from_slice: reads `body` as the text of one JSON
/// object, and fails on anything else (another kind of value, bad syntax,
/// trailing data).
#[verifier::external_body]
fn parse_object(body: &[u8]) -> (r: Result<serde_json::Map<String, serde_json::Value>, serde_json::Error>)
    ensures
        match r {
            Ok(m) => parsed_object_keys(body@) == Some(object_keys(m)),
            Err(_) => parsed_object_keys(body@) is None,
        },
{
    serde_json::from_slice(body)
}

/// Relies on serde_json::Map::contains_key: whether the object has a field named `key`.
#[verifier::external_body]
fn has_key(m: &serde_json::Map<String, serde_json::Value>, key: &str) -> (r: bool)
    ensures
        r == object_keys(*m).contains(key@),
{
    m.contains_key(key)
}

/// What the verification endpoint answered: nothing (no connection, or the
/// body could not be read), or a status code and the body's bytes.
#[derive(Debug, PartialEq, Eq)]
pub enum LicenseResponse {
    Unreachable,
    Received { status: u16, body: Vec<u8> },
}

/// A 2xx status.
pub open spec fn status_ok(status: u16) -> bool {
    200 <= status <= 299
}

/// The verdict on a status and on what the body held: `None` when the body
/// is not one JSON object, else whether the object has a `gameKey` field.
pub open spec fn grants(status: u16, key_present: Option<bool>) -> bool {
    status_ok(status) && key_present == Some(true)
}

/// Whether the field `gameKey` is among the keys of the object the body holds.
pub open spec fn body_has_game_key(body: Seq<u8>) -> Option<bool> {
    match parsed_object_keys(body) {
        Some(keys) => Some(keys.contains("gameKey"@)),
        None => None,
    }
}

/// The license holds when the endpoint answered with a 2xx status and a JSON
/// object that has a `gameKey` field; every other outcome is a refusal.
pub open spec fn license_holds(resp: LicenseResponse) -> bool {
    match resp {
        LicenseResponse::Unreachable => false,
        LicenseResponse::Received { status, body } => grants(status, body_has_game_key(body@)),
    }
}

/// Decides the license from the status and from whether the body's JSON
/// object has a `gameKey` field (`None`: the body is no JSON object).
pub fn license_decision(status: u16, key_present: Option<bool>) -> (r: bool)
    ensures
        r == grants(status, key_present),
{
    if status < 200 || status > 299 {
        return false;
    }
    match key_present {
        Some(true) => true,
        _ => false,
    }
}

/// Looks for the `gameKey` field in the JSON object the body holds.
pub fn game_key_in(body: &Vec<u8>) -> (r: Option<bool>)
    ensures
        r == body_has_game_key(body@),
{
    match parse_object(body.as_slice()) {
        Ok(m) => Some(has_key(&m, "gameKey")),
        Err(_) => None,
    }
}

/// Whether the endpoint's answer grants the license.
pub fn license_granted(resp: &LicenseResponse) -> (r: bool)
    ensures
        r == license_holds(*resp),
{
    match resp {
        LicenseResponse::Unreachable => false,
        LicenseResponse::Received { status, body } => {
            if *status < 200 || *status > 299 {
                return false;
            }
            license_decision(*status, game_key_in(body))
        },
    }
}

/// The decimal digits, indexed by value.
pub open spec fn digit_char(d: nat) -> char {
    seq!['0', '1', '2', '3', '4', '5', '6', '7', '8', '9'][d as int]
}

/// The decimal numeral of `n`, without leading zeros.
pub open spec fn decimal(n: nat) -> Seq<char>
    decreases n,
{
    if n < 10 {
        seq![digit_char(n)]
    } else {
        decimal(n / 10).push(digit_char(n % 10))
    }
}

/// The numeral of `n`, with a minus sign when negative.
pub open spec fn signed_decimal(n: int) -> Seq<char> {
    if n < 0 {
        seq!['-'] + decimal((-n) as nat)
    } else {
        decimal(n as nat)
    }
}

pub open spec fn digits_text(v: Seq<u64>) -> Seq<char> {
    v.map_values(|d: u64| digit_char(d as nat))
}

/// The address that verifies the license of `user_id` for `game_id`.
pub open spec fn license_address(user_id: int, game_id: int) -> Seq<char> {
    "http://localhost:3000/api/games/library/verify/"@ + signed_decimal(user_id) + "/"@
        + signed_decimal(game_id)
}

fn digit_text(d: u64) -> (r: &'static str)
    requires
        d < 10,
    ensures
        r@ == seq![digit_char(d as nat)],
{
    proof {
        reveal_strlit("0");
        reveal_strlit("1");
        reveal_strlit("2");
        reveal_strlit("3");
        reveal_strlit("4");
        reveal_strlit("5");
        reveal_strlit("6");
        reveal_strlit("7");
        reveal_strlit("8");
        reveal_strlit("9");
    }
    let r = if d == 0 {
        "0"
    } else if d == 1 {
        "1"
    } else if d == 2 {
        "2"
    } else if d == 3 {
        "3"
    } else if d == 4 {
        "4"
    } else if d == 5 {
        "5"
    } else if d == 6 {
        "6"
    } else if d == 7 {
        "7"
    } else if d == 8 {
        "8"
    } else {
        "9"
    };
    assert(r@ =~= seq![digit_char(d as nat)]);
    r
}

/// The digits of `n`, most significant first.
fn digits_of(n: u64) -> (r: Vec<u64>)
    ensures
        digits_text(r@) == decimal(n as nat),
        forall|i: int| 0 <= i < r@.len() ==> r@[i] < 10,
{
    let mut v: Vec<u64> = Vec::new();
    let mut m: u64 = n;
    while m >= 10
        invariant
            decimal(n as nat) == decimal(m as nat) + digits_text(v@),
            forall|i: int| 0 <= i < v@.len() ==> v@[i] < 10,
        decreases m,
    {
        let ghost before = v@;
        v.insert(0, m % 10);
        proof {
            assert(digits_text(v@) =~= seq![digit_char((m % 10) as nat)] + digits_text(before));
            assert(decimal(m as nat) == decimal((m / 10) as nat).push(digit_char((m % 10) as nat)));
            assert(decimal(m as nat) + digits_text(before) =~= decimal((m / 10) as nat) + digits_text(v@));
        }
        m = m / 10;
    }
    let ghost before = v@;
    v.insert(0, m);
    proof {
        assert(digits_text(v@) =~= seq![digit_char(m as nat)] + digits_text(before));
        assert(decimal(m as nat) + digits_text(before) =~= digits_text(v@));
    }
    v
}

fn push_signed(out: &mut String, n: i32)
    ensures
        final(out)@ == old(out)@ + signed_decimal(n as int),
{
    let magnitude: u64 = if n < 0 {
        (0 - (n as i64)) as u64
    } else {
        n as u64
    };
    if n < 0 {
        proof {
            reveal_strlit("-");
        }
        out.append("-");
    }
    let ghost start = out@;
    let digits = digits_of(magnitude);
    let mut i: usize = 0;
    while i < digits.len()
        invariant
            0 <= i <= digits@.len(),
            forall|k: int| 0 <= k < digits@.len() ==> digits@[k] < 10,
            out@ == start + digits_text(digits@.take(i as int)),
        decreases digits@.len() - i,
    {
        out.append(digit_text(digits[i]));
        proof {
            assert(digits_text(digits@.take(i + 1)) =~= digits_text(digits@.take(i as int)).push(
                digit_char(digits@[i as int] as nat),
            ));
        }
        i = i + 1;
    }
    proof {
        assert(digits@.take(digits@.len() as int) =~= digits@);
        if n < 0 {
            assert(old(out)@ + signed_decimal(n as int) =~= old(out)@ + seq!['-'] + decimal(magnitude as nat));
        }
    }
}

/// The address of the license check for `user_id` and `game_id`.
pub fn license_url(user_id: i32, game_id: i32) -> (r: String)
    ensures
        r@ == license_address(user_id as int, game_id as int),
{
    let mut url = String::from_str("http://localhost:3000/api/games/library/verify/");
    push_signed(&mut url, user_id);
    url.append("/");
    push_signed(&mut url, game_id);
    proof {
        assert(url@ =~= license_address(user_id as int, game_id as int));
    }
    url
}

} // verus!
