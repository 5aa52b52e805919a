//! The request methods the server understands.
use vstd::prelude::*;

verus! {

#[derive(PartialEq, Eq, Structural, Clone, Copy, Debug)]
pub enum Method {
    Get,
    Post,
    Put,
}

pub open spec fn ascii_lower(b: u8) -> u8 {
    if 65 <= b <= 90 {
        (b + 32) as u8
    } else {
        b
    }
}

/// `s` with ASCII capitals made small.
pub open spec fn lower(s: Seq<u8>) -> Seq<u8> {
    s.map_values(|b: u8| ascii_lower(b))
}

/// The method that a request-line token names, in any mix of cases.
/// Other bytes lower-case to none of these letters, so comparing the ASCII
/// lower case is the same as comparing full lower case.
pub open spec fn method_of(tok: Seq<u8>) -> Option<Method> {
    if lower(tok) == seq![103u8, 101, 116] {
        Some(Method::Get)
    } else if lower(tok) == seq![112u8, 111, 115, 116] {
        Some(Method::Post)
    } else if lower(tok) == seq![112u8, 117, 116] {
        Some(Method::Put)
    } else {
        None
    }
}

pub fn lower_byte(b: u8) -> (r: u8)
    ensures
        r == ascii_lower(b),
{
    if 65 <= b && b <= 90 {
        b + 32
    } else {
        b
    }
}

impl Method {
    /// Whether a request with this method carries a body.
    pub open spec fn spec_has_body(self) -> bool {
        self == Method::Post || self == Method::Put
    }

    pub fn has_body(&self) -> (r: bool)
        ensures
            r == self.spec_has_body(),
    {
        match self {
            Method::Get => false,
            _ => true,
        }
    }

    /// The method named by a request-line token; `None` for any other word.
    pub fn from(tok: &[u8]) -> (r: Option<Method>)
        ensures
            r == method_of(tok@),
    {
        let n = tok.len();
        let ghost l = lower(tok@);
        assert(l.len() == n);
        if n == 3 && lower_byte(tok[0]) == 103 && lower_byte(tok[1]) == 101 && lower_byte(tok[2])
            == 116 {
            assert(l =~= seq![103u8, 101, 116]);
            return Some(Method::Get);
        }
        if n == 4 && lower_byte(tok[0]) == 112 && lower_byte(tok[1]) == 111 && lower_byte(tok[2])
            == 115 && lower_byte(tok[3]) == 116 {
            assert(l =~= seq![112u8, 111, 115, 116]);
            assert(l != seq![103u8, 101, 116]);
            return Some(Method::Post);
        }
        if n == 3 && lower_byte(tok[0]) == 112 && lower_byte(tok[1]) == 117 && lower_byte(tok[2])
            == 116 {
            assert(l =~= seq![112u8, 117, 116]);
            assert(l[0] != seq![103u8, 101, 116][0]);
            return Some(Method::Put);
        }
        proof {
            if l == seq![103u8, 101, 116] {
                assert(l[0] == 103 && l[1] == 101 && l[2] == 116);
            }
            if l == seq![112u8, 111, 115, 116] {
                assert(l[0] == 112 && l[1] == 111 && l[2] == 115 && l[3] == 116);
            }
            if l == seq![112u8, 117, 116] {
                assert(l[0] == 112 && l[1] == 117 && l[2] == 116);
            }
        }
        None
    }
}

} // verus!
