//! The cookie builder: a value object configured by chained calls and
//! rendered as one `Set-Cookie`-formatted string. It does not attach itself
//! to a response; callers insert the rendered string into the headers.

use vstd::prelude::*;

verus! {

/// The decimal digit characters.
pub open spec fn digit_char(d: int) -> char {
    if d == 0 {
        '0'
    } else if d == 1 {
        '1'
    } else if d == 2 {
        '2'
    } else if d == 3 {
        '3'
    } else if d == 4 {
        '4'
    } else if d == 5 {
        '5'
    } else if d == 6 {
        '6'
    } else if d == 7 {
        '7'
    } else if d == 8 {
        '8'
    } else {
        '9'
    }
}

/// Decimal digits of a non-negative integer, most significant first, as
/// characters.
pub open spec fn dec_chars(n: int) -> Seq<char>
    decreases n when n >= 0
{
    if n < 10 {
        seq![digit_char(n)]
    } else {
        dec_chars(n / 10).push(digit_char(n % 10))
    }
}

/// Decimal rendering of a signed integer, a leading minus sign included.
pub open spec fn dec_chars_signed(n: int) -> Seq<char> {
    if n < 0 {
        seq!['-'] + dec_chars(-n)
    } else {
        dec_chars(n)
    }
}

/// The single decimal digit `d` as a string.
fn digit_str(d: u64) -> (r: &'static str)
    requires
        d < 10,
    ensures
        r@ == seq![digit_char(d as int)],
{
    let r: &'static str = if d == 0 {
        "0"
    } else if d == 1 {
        "1"
    } else if d == 2 {
        "2"
    } else if d == 3 {
        "3"
    } else if d == 4 {
        "4"
    } else if d == 5 {
        "5"
    } else if d == 6 {
        "6"
    } else if d == 7 {
        "7"
    } else if d == 8 {
        "8"
    } else {
        "9"
    };
    proof {
        reveal_strlit("0");
        reveal_strlit("1");
        reveal_strlit("2");
        reveal_strlit("3");
        reveal_strlit("4");
        reveal_strlit("5");
        reveal_strlit("6");
        reveal_strlit("7");
        reveal_strlit("8");
        reveal_strlit("9");
        assert(r@ =~= seq![digit_char(d as int)]);
    }
    r
}

/// Decimal rendering of `n`.
fn u64_dec_string(n: u64) -> (r: String)
    ensures
        r@ == dec_chars(n as int),
    decreases n,
{
    if n < 10 {
        let r = String::from_str(digit_str(n));
        proof {
            assert(r@ =~= dec_chars(n as int));
        }
        r
    } else {
        let mut r = u64_dec_string(n / 10);
        r.append(digit_str(n % 10));
        proof {
            assert(r@ =~= dec_chars(n as int));
        }
        r
    }
}

/// Decimal rendering of `n`, with a minus sign when negative.
fn i64_dec_string(n: i64) -> (r: String)
    ensures
        r@ == dec_chars_signed(n as int),
{
    if n >= 0 {
        u64_dec_string(n as u64)
    } else {
        let mag: u64 = ((-(n + 1)) as u64) + 1;
        proof {
            assert(mag == -(n as int));
        }
        let mut r = String::from_str("-");
        let digits = u64_dec_string(mag);
        r.append(digits.as_str());
        proof {
            reveal_strlit("-");
            assert("-"@ =~= seq!['-']);
            assert(r@ =~= dec_chars_signed(n as int));
        }
        r
    }
}

/// The view of an optional string.
pub open spec fn opt_str_view(o: &Option<String>) -> Option<Seq<char>> {
    match o {
        Some(s) => Some(s@),
        None => None,
    }
}

/// One `Set-Cookie` value under construction.
pub struct Cookie {
    pub name: String,
    pub value: String,
    pub expires: Option<String>,
    pub max_age: Option<i64>,
    pub domain: Option<String>,
    pub path: Option<String>,
    pub secure: Option<bool>,
    pub http_only: Option<bool>,
    pub same_site: Option<String>,
}

/// The rendered cookie string: `name=value` followed by each configured
/// attribute, in a fixed order.
pub open spec fn cookie_string(c: &Cookie) -> Seq<char> {
    c.name@ + "="@ + c.value@ + (match c.expires {
        Some(e) => "; Expires="@ + e@,
        None => Seq::empty(),
    }) + (match c.max_age {
        Some(a) => "; Max-Age="@ + dec_chars_signed(a as int),
        None => Seq::empty(),
    }) + (match c.domain {
        Some(d) => "; Domain="@ + d@,
        None => Seq::empty(),
    }) + (match c.path {
        Some(p) => "; Path="@ + p@,
        None => Seq::empty(),
    }) + (match c.same_site {
        Some(s) => "; SameSite="@ + s@,
        None => Seq::empty(),
    }) + (if c.secure == Some(true) {
        "; Secure"@
    } else {
        Seq::empty()
    }) + (if c.http_only == Some(true) {
        "; HttpOnly"@
    } else {
        Seq::empty()
    })
}

impl Cookie {
    /// A cookie with the given name and value and no attributes.
    pub fn new(name: &str, value: &str) -> (r: Cookie)
        ensures
            r.name@ == name@,
            r.value@ == value@,
            r.expires is None,
            r.max_age is None,
            r.domain is None,
            r.path is None,
            r.secure is None,
            r.http_only is None,
            r.same_site is None,
    {
        Cookie {
            name: String::from_str(name),
            value: String::from_str(value),
            expires: None,
            max_age: None,
            domain: None,
            path: None,
            secure: None,
            http_only: None,
            same_site: None,
        }
    }

    /// The same cookie with its `Expires` attribute set.
    pub fn with_expires(self, expires: &str) -> (r: Cookie)
        ensures
            opt_str_view(&r.expires) == Some(expires@),
            r.name@ == self.name@,
            r.value@ == self.value@,
            r.max_age == self.max_age,
            opt_str_view(&r.domain) == opt_str_view(&self.domain),
            opt_str_view(&r.path) == opt_str_view(&self.path),
            r.secure == self.secure,
            r.http_only == self.http_only,
            opt_str_view(&r.same_site) == opt_str_view(&self.same_site),
    {
        Cookie { expires: Some(String::from_str(expires)), ..self }
    }

    /// The same cookie with its `Max-Age` attribute set.
    pub fn with_max_age(self, max_age: i64) -> (r: Cookie)
        ensures
            r.max_age == Some(max_age),
            r.name@ == self.name@,
            r.value@ == self.value@,
            opt_str_view(&r.expires) == opt_str_view(&self.expires),
            opt_str_view(&r.domain) == opt_str_view(&self.domain),
            opt_str_view(&r.path) == opt_str_view(&self.path),
            r.secure == self.secure,
            r.http_only == self.http_only,
            opt_str_view(&r.same_site) == opt_str_view(&self.same_site),
    {
        Cookie { max_age: Some(max_age), ..self }
    }

    /// The same cookie with its `Domain` attribute set.
    pub fn with_domain(self, domain: &str) -> (r: Cookie)
        ensures
            opt_str_view(&r.domain) == Some(domain@),
            r.name@ == self.name@,
            r.value@ == self.value@,
            opt_str_view(&r.expires) == opt_str_view(&self.expires),
            r.max_age == self.max_age,
            opt_str_view(&r.path) == opt_str_view(&self.path),
            r.secure == self.secure,
            r.http_only == self.http_only,
            opt_str_view(&r.same_site) == opt_str_view(&self.same_site),
    {
        Cookie { domain: Some(String::from_str(domain)), ..self }
    }

    /// The same cookie with its `Path` attribute set.
    pub fn with_path(self, path: &str) -> (r: Cookie)
        ensures
            opt_str_view(&r.path) == Some(path@),
            r.name@ == self.name@,
            r.value@ == self.value@,
            opt_str_view(&r.expires) == opt_str_view(&self.expires),
            r.max_age == self.max_age,
            opt_str_view(&r.domain) == opt_str_view(&self.domain),
            r.secure == self.secure,
            r.http_only == self.http_only,
            opt_str_view(&r.same_site) == opt_str_view(&self.same_site),
    {
        Cookie { path: Some(String::from_str(path)), ..self }
    }

    /// The same cookie with its `Secure` flag set.
    pub fn with_secure(self, secure: bool) -> (r: Cookie)
        ensures
            r.secure == Some(secure),
            r.name@ == self.name@,
            r.value@ == self.value@,
            opt_str_view(&r.expires) == opt_str_view(&self.expires),
            r.max_age == self.max_age,
            opt_str_view(&r.domain) == opt_str_view(&self.domain),
            opt_str_view(&r.path) == opt_str_view(&self.path),
            r.http_only == self.http_only,
            opt_str_view(&r.same_site) == opt_str_view(&self.same_site),
    {
        Cookie { secure: Some(secure), ..self }
    }

    /// The same cookie with its `HttpOnly` flag set.
    pub fn with_http_only(self, http_only: bool) -> (r: Cookie)
        ensures
            r.http_only == Some(http_only),
            r.name@ == self.name@,
            r.value@ == self.value@,
            opt_str_view(&r.expires) == opt_str_view(&self.expires),
            r.max_age == self.max_age,
            opt_str_view(&r.domain) == opt_str_view(&self.domain),
            opt_str_view(&r.path) == opt_str_view(&self.path),
            r.secure == self.secure,
            opt_str_view(&r.same_site) == opt_str_view(&self.same_site),
    {
        Cookie { http_only: Some(http_only), ..self }
    }

    /// The same cookie with its `SameSite` attribute set.
    pub fn with_same_site(self, same_site: &str) -> (r: Cookie)
        ensures
            opt_str_view(&r.same_site) == Some(same_site@),
            r.name@ == self.name@,
            r.value@ == self.value@,
            opt_str_view(&r.expires) == opt_str_view(&self.expires),
            r.max_age == self.max_age,
            opt_str_view(&r.domain) == opt_str_view(&self.domain),
            opt_str_view(&r.path) == opt_str_view(&self.path),
            r.secure == self.secure,
            r.http_only == self.http_only,
    {
        Cookie { same_site: Some(String::from_str(same_site)), ..self }
    }

    /// Render the cookie as one `Set-Cookie`-formatted string.
    #[verifier::rlimit(100)]
    #[verifier::spinoff_prover]
    pub fn to_string(&self) -> (r: String)
        ensures
            r@ == cookie_string(self),
    {
        let ghost g0 = self.name@ + "="@ + self.value@;
        let ghost g1 = g0 + (match &self.expires {
            Some(e) => "; Expires="@ + e@,
            None => Seq::empty(),
        });
        let ghost g2 = g1 + (match &self.max_age {
            Some(a) => "; Max-Age="@ + dec_chars_signed(a as int),
            None => Seq::empty(),
        });
        let ghost g3 = g2 + (match &self.domain {
            Some(d) => "; Domain="@ + d@,
            None => Seq::empty(),
        });
        let ghost g4 = g3 + (match &self.path {
            Some(p) => "; Path="@ + p@,
            None => Seq::empty(),
        });
        let ghost g5 = g4 + (match &self.same_site {
            Some(ss) => "; SameSite="@ + ss@,
            None => Seq::empty(),
        });
        let ghost g6 = g5 + (if self.secure == Some(true) {
            "; Secure"@
        } else {
            Seq::<char>::empty()
        });
        let ghost g7 = g6 + (if self.http_only == Some(true) {
            "; HttpOnly"@
        } else {
            Seq::<char>::empty()
        });
        let mut s = String::from_str(self.name.as_str());
        s.append("=");
        s.append(self.value.as_str());
        proof {
            assert(s@ =~= g0);
        }
        if let Some(expires) = &self.expires {
            s.append("; Expires=");
            s.append(expires.as_str());
        }
        proof {
            assert(s@ =~= g1);
        }
        if let Some(max_age) = &self.max_age {
            s.append("; Max-Age=");
            let rendered = i64_dec_string(*max_age);
            s.append(rendered.as_str());
        }
        proof {
            assert(s@ =~= g2);
        }
        if let Some(domain) = &self.domain {
            s.append("; Domain=");
            s.append(domain.as_str());
        }
        proof {
            assert(s@ =~= g3);
        }
        if let Some(path) = &self.path {
            s.append("; Path=");
            s.append(path.as_str());
        }
        proof {
            assert(s@ =~= g4);
        }
        if let Some(same_site) = &self.same_site {
            s.append("; SameSite=");
            s.append(same_site.as_str());
        }
        proof {
            assert(s@ =~= g5);
        }
        if let Some(secure) = &self.secure {
            if *secure {
                s.append("; Secure");
            }
        }
        proof {
            assert(s@ =~= g6);
        }
        if let Some(http_only) = &self.http_only {
            if *http_only {
                s.append("; HttpOnly");
            }
        }
        proof {
            assert(s@ =~= g7);
            assert(cookie_string(self) == g7);
        }
        s
    }
}

} // verus!
