use vstd::prelude::*;

use crate::text::{chars_of, same_chars};

verus! {

/// The named easing curves.
#[derive(Clone, Copy, Debug, Default, PartialEq, Eq, Hash, Structural)]
pub enum Easing {
    #[default]
    Linear,
    InSine,
    OutSine,
    InOutSine,
    InQuad,
    OutQuad,
    InOutQuad,
    InCubic,
    OutCubic,
    InOutCubic,
    InQuart,
    OutQuart,
    InOutQuart,
    InQuint,
    OutQuint,
    InOutQuint,
    InExpo,
    OutExpo,
    InOutExpo,
    InCirc,
    OutCirc,
    InOutCirc,
    InBack,
    OutBack,
    InOutBack,
    InElastic,
    OutElastic,
    InOutElastic,
    InBounce,
    OutBounce,
    InOutBounce,
}

/// ASCII lowercase of `c`, with `-` read as `_`.
pub open spec fn normalize_name_char(c: char) -> char {
    if 'A' <= c <= 'Z' {
        ((c as u32) + 32) as char
    } else if c == '-' {
        '_'
    } else {
        c
    }
}

/// A name as `from_name` compares it: ASCII lowercase, `-` read as `_`.
pub open spec fn normalize_name(s: Seq<char>) -> Seq<char> {
    s.map_values(|c: char| normalize_name_char(c))
}

/// The easing a normalized name denotes.
pub open spec fn easing_named(s: Seq<char>) -> Option<Easing> {
    if s == "linear"@ {
        Some(Easing::Linear)
    } else if s == "in_sine"@ {
        Some(Easing::InSine)
    } else if s == "out_sine"@ {
        Some(Easing::OutSine)
    } else if s == "in_out_sine"@ {
        Some(Easing::InOutSine)
    } else if s == "in_quad"@ {
        Some(Easing::InQuad)
    } else if s == "out_quad"@ {
        Some(Easing::OutQuad)
    } else if s == "in_out_quad"@ {
        Some(Easing::InOutQuad)
    } else if s == "in_cubic"@ {
        Some(Easing::InCubic)
    } else if s == "out_cubic"@ {
        Some(Easing::OutCubic)
    } else if s == "in_out_cubic"@ {
        Some(Easing::InOutCubic)
    } else if s == "in_quart"@ {
        Some(Easing::InQuart)
    } else if s == "out_quart"@ {
        Some(Easing::OutQuart)
    } else if s == "in_out_quart"@ {
        Some(Easing::InOutQuart)
    } else if s == "in_quint"@ {
        Some(Easing::InQuint)
    } else if s == "out_quint"@ {
        Some(Easing::OutQuint)
    } else if s == "in_out_quint"@ {
        Some(Easing::InOutQuint)
    } else if s == "in_expo"@ {
        Some(Easing::InExpo)
    } else if s == "out_expo"@ {
        Some(Easing::OutExpo)
    } else if s == "in_out_expo"@ {
        Some(Easing::InOutExpo)
    } else if s == "in_circ"@ {
        Some(Easing::InCirc)
    } else if s == "out_circ"@ {
        Some(Easing::OutCirc)
    } else if s == "in_out_circ"@ {
        Some(Easing::InOutCirc)
    } else if s == "in_back"@ {
        Some(Easing::InBack)
    } else if s == "out_back"@ {
        Some(Easing::OutBack)
    } else if s == "in_out_back"@ {
        Some(Easing::InOutBack)
    } else if s == "in_elastic"@ {
        Some(Easing::InElastic)
    } else if s == "out_elastic"@ {
        Some(Easing::OutElastic)
    } else if s == "in_out_elastic"@ {
        Some(Easing::InOutElastic)
    } else if s == "in_bounce"@ {
        Some(Easing::InBounce)
    } else if s == "out_bounce"@ {
        Some(Easing::OutBounce)
    } else if s == "in_out_bounce"@ {
        Some(Easing::InOutBounce)
    } else {
        None
    }
}

fn normalize_chars(v: &Vec<char>) -> (w: Vec<char>)
    ensures
        w@ == normalize_name(v@),
{
    let mut w: Vec<char> = Vec::new();
    let mut i: usize = 0;
    while i < v.len()
        invariant
            i <= v.len(),
            w@ =~= normalize_name(v@.take(i as int)),
        decreases v.len() - i,
    {
        let c = v[i];
        let d = if 'A' <= c && c <= 'Z' {
            char_from_u32_ascii((c as u32) + 32)
        } else if c == '-' {
            '_'
        } else {
            c
        };
        w.push(d);
        proof {
            assert(v@.take(i + 1) =~= v@.take(i as int).push(c));
        }
        i += 1;
    }
    proof {
        assert(v@.take(v@.len() as int) =~= v@);
    }
    w
}

/// The character with ASCII code `v`.
fn char_from_u32_ascii(v: u32) -> (c: char)
    requires
        0x61 <= v <= 0x7a,
    ensures
        c == v as char,
{
    let ascii: [char; 26] = ['a', 'b', 'c', 'd', 'e', 'f', 'g', 'h', 'i', 'j', 'k', 'l', 'm', 'n', 'o', 'p', 'q', 'r', 's', 't', 'u', 'v', 'w', 'x', 'y', 'z'];
    ascii[(v - 0x61) as usize]
}

impl Easing {
    /// Looks an easing up by its snake-case name, ignoring ASCII case and reading `-` as `_`.
    pub fn from_name(name: &str) -> (e: Option<Self>)
        ensures
            e == easing_named(normalize_name(name@)),
    {
        let v = chars_of(name);
        let s = normalize_chars(&v);
        if same_chars(&s, "linear") {
            return Some(Easing::Linear);
        }
        if same_chars(&s, "in_sine") {
            return Some(Easing::InSine);
        }
        if same_chars(&s, "out_sine") {
            return Some(Easing::OutSine);
        }
        if same_chars(&s, "in_out_sine") {
            return Some(Easing::InOutSine);
        }
        if same_chars(&s, "in_quad") {
            return Some(Easing::InQuad);
        }
        if same_chars(&s, "out_quad") {
            return Some(Easing::OutQuad);
        }
        if same_chars(&s, "in_out_quad") {
            return Some(Easing::InOutQuad);
        }
        if same_chars(&s, "in_cubic") {
            return Some(Easing::InCubic);
        }
        if same_chars(&s, "out_cubic") {
            return Some(Easing::OutCubic);
        }
        if same_chars(&s, "in_out_cubic") {
            return Some(Easing::InOutCubic);
        }
        if same_chars(&s, "in_quart") {
            return Some(Easing::InQuart);
        }
        if same_chars(&s, "out_quart") {
            return Some(Easing::OutQuart);
        }
        if same_chars(&s, "in_out_quart") {
            return Some(Easing::InOutQuart);
        }
        if same_chars(&s, "in_quint") {
            return Some(Easing::InQuint);
        }
        if same_chars(&s, "out_quint") {
            return Some(Easing::OutQuint);
        }
        if same_chars(&s, "in_out_quint") {
            return Some(Easing::InOutQuint);
        }
        if same_chars(&s, "in_expo") {
            return Some(Easing::InExpo);
        }
        if same_chars(&s, "out_expo") {
            return Some(Easing::OutExpo);
        }
        if same_chars(&s, "in_out_expo") {
            return Some(Easing::InOutExpo);
        }
        if same_chars(&s, "in_circ") {
            return Some(Easing::InCirc);
        }
        if same_chars(&s, "out_circ") {
            return Some(Easing::OutCirc);
        }
        if same_chars(&s, "in_out_circ") {
            return Some(Easing::InOutCirc);
        }
        if same_chars(&s, "in_back") {
            return Some(Easing::InBack);
        }
        if same_chars(&s, "out_back") {
            return Some(Easing::OutBack);
        }
        if same_chars(&s, "in_out_back") {
            return Some(Easing::InOutBack);
        }
        if same_chars(&s, "in_elastic") {
            return Some(Easing::InElastic);
        }
        if same_chars(&s, "out_elastic") {
            return Some(Easing::OutElastic);
        }
        if same_chars(&s, "in_out_elastic") {
            return Some(Easing::InOutElastic);
        }
        if same_chars(&s, "in_bounce") {
            return Some(Easing::InBounce);
        }
        if same_chars(&s, "out_bounce") {
            return Some(Easing::OutBounce);
        }
        if same_chars(&s, "in_out_bounce") {
            return Some(Easing::InOutBounce);
        }
        None
    }
}

/// Law: normalizing a name twice is normalizing it once, so `from_name` reads a name and
/// its normalized form alike.
pub proof fn lemma_normalize_idempotent(s: Seq<char>)
    ensures
        normalize_name(normalize_name(s)) == normalize_name(s),
        easing_named(normalize_name(normalize_name(s))) == easing_named(normalize_name(s)),
{
    assert forall|i: int| 0 <= i < s.len() implies #[trigger] normalize_name_char(normalize_name_char(s[i]))
        == normalize_name_char(s[i]) by {
        let c = s[i];
        if 'A' <= c <= 'Z' {
            assert('a' <= normalize_name_char(c) <= 'z');
        }
    }
    assert(normalize_name(normalize_name(s)) =~= normalize_name(s));
}


/// The name of an easing: its variant in snake case.
pub open spec fn easing_name(e: Easing) -> Seq<char> {
    match e {
        Easing::Linear => "linear"@,
        Easing::InSine => "in_sine"@,
        Easing::OutSine => "out_sine"@,
        Easing::InOutSine => "in_out_sine"@,
        Easing::InQuad => "in_quad"@,
        Easing::OutQuad => "out_quad"@,
        Easing::InOutQuad => "in_out_quad"@,
        Easing::InCubic => "in_cubic"@,
        Easing::OutCubic => "out_cubic"@,
        Easing::InOutCubic => "in_out_cubic"@,
        Easing::InQuart => "in_quart"@,
        Easing::OutQuart => "out_quart"@,
        Easing::InOutQuart => "in_out_quart"@,
        Easing::InQuint => "in_quint"@,
        Easing::OutQuint => "out_quint"@,
        Easing::InOutQuint => "in_out_quint"@,
        Easing::InExpo => "in_expo"@,
        Easing::OutExpo => "out_expo"@,
        Easing::InOutExpo => "in_out_expo"@,
        Easing::InCirc => "in_circ"@,
        Easing::OutCirc => "out_circ"@,
        Easing::InOutCirc => "in_out_circ"@,
        Easing::InBack => "in_back"@,
        Easing::OutBack => "out_back"@,
        Easing::InOutBack => "in_out_back"@,
        Easing::InElastic => "in_elastic"@,
        Easing::OutElastic => "out_elastic"@,
        Easing::InOutElastic => "in_out_elastic"@,
        Easing::InBounce => "in_bounce"@,
        Easing::OutBounce => "out_bounce"@,
        Easing::InOutBounce => "in_out_bounce"@,
    }
}

/// Law: normalizing leaves an easing's name alone.
pub proof fn lemma_easing_name_normal(e: Easing)
    ensures
        normalize_name(easing_name(e)) == easing_name(e),
{
    match e {
        Easing::Linear => {
            reveal_strlit("linear");
            assert(normalize_name("linear"@) =~= "linear"@);
        },
        Easing::InSine => {
            reveal_strlit("in_sine");
            assert(normalize_name("in_sine"@) =~= "in_sine"@);
        },
        Easing::OutSine => {
            reveal_strlit("out_sine");
            assert(normalize_name("out_sine"@) =~= "out_sine"@);
        },
        Easing::InOutSine => {
            reveal_strlit("in_out_sine");
            assert(normalize_name("in_out_sine"@) =~= "in_out_sine"@);
        },
        Easing::InQuad => {
            reveal_strlit("in_quad");
            assert(normalize_name("in_quad"@) =~= "in_quad"@);
        },
        Easing::OutQuad => {
            reveal_strlit("out_quad");
            assert(normalize_name("out_quad"@) =~= "out_quad"@);
        },
        Easing::InOutQuad => {
            reveal_strlit("in_out_quad");
            assert(normalize_name("in_out_quad"@) =~= "in_out_quad"@);
        },
        Easing::InCubic => {
            reveal_strlit("in_cubic");
            assert(normalize_name("in_cubic"@) =~= "in_cubic"@);
        },
        Easing::OutCubic => {
            reveal_strlit("out_cubic");
            assert(normalize_name("out_cubic"@) =~= "out_cubic"@);
        },
        Easing::InOutCubic => {
            reveal_strlit("in_out_cubic");
            assert(normalize_name("in_out_cubic"@) =~= "in_out_cubic"@);
        },
        Easing::InQuart => {
            reveal_strlit("in_quart");
            assert(normalize_name("in_quart"@) =~= "in_quart"@);
        },
        Easing::OutQuart => {
            reveal_strlit("out_quart");
            assert(normalize_name("out_quart"@) =~= "out_quart"@);
        },
        Easing::InOutQuart => {
            reveal_strlit("in_out_quart");
            assert(normalize_name("in_out_quart"@) =~= "in_out_quart"@);
        },
        Easing::InQuint => {
            reveal_strlit("in_quint");
            assert(normalize_name("in_quint"@) =~= "in_quint"@);
        },
        Easing::OutQuint => {
            reveal_strlit("out_quint");
            assert(normalize_name("out_quint"@) =~= "out_quint"@);
        },
        Easing::InOutQuint => {
            reveal_strlit("in_out_quint");
            assert(normalize_name("in_out_quint"@) =~= "in_out_quint"@);
        },
        Easing::InExpo => {
            reveal_strlit("in_expo");
            assert(normalize_name("in_expo"@) =~= "in_expo"@);
        },
        Easing::OutExpo => {
            reveal_strlit("out_expo");
            assert(normalize_name("out_expo"@) =~= "out_expo"@);
        },
        Easing::InOutExpo => {
            reveal_strlit("in_out_expo");
            assert(normalize_name("in_out_expo"@) =~= "in_out_expo"@);
        },
        Easing::InCirc => {
            reveal_strlit("in_circ");
            assert(normalize_name("in_circ"@) =~= "in_circ"@);
        },
        Easing::OutCirc => {
            reveal_strlit("out_circ");
            assert(normalize_name("out_circ"@) =~= "out_circ"@);
        },
        Easing::InOutCirc => {
            reveal_strlit("in_out_circ");
            assert(normalize_name("in_out_circ"@) =~= "in_out_circ"@);
        },
        Easing::InBack => {
            reveal_strlit("in_back");
            assert(normalize_name("in_back"@) =~= "in_back"@);
        },
        Easing::OutBack => {
            reveal_strlit("out_back");
            assert(normalize_name("out_back"@) =~= "out_back"@);
        },
        Easing::InOutBack => {
            reveal_strlit("in_out_back");
            assert(normalize_name("in_out_back"@) =~= "in_out_back"@);
        },
        Easing::InElastic => {
            reveal_strlit("in_elastic");
            assert(normalize_name("in_elastic"@) =~= "in_elastic"@);
        },
        Easing::OutElastic => {
            reveal_strlit("out_elastic");
            assert(normalize_name("out_elastic"@) =~= "out_elastic"@);
        },
        Easing::InOutElastic => {
            reveal_strlit("in_out_elastic");
            assert(normalize_name("in_out_elastic"@) =~= "in_out_elastic"@);
        },
        Easing::InBounce => {
            reveal_strlit("in_bounce");
            assert(normalize_name("in_bounce"@) =~= "in_bounce"@);
        },
        Easing::OutBounce => {
            reveal_strlit("out_bounce");
            assert(normalize_name("out_bounce"@) =~= "out_bounce"@);
        },
        Easing::InOutBounce => {
            reveal_strlit("in_out_bounce");
            assert(normalize_name("in_out_bounce"@) =~= "in_out_bounce"@);
        },
    }
}

/// Law: an easing's name names that easing.
pub proof fn lemma_easing_name(e: Easing)
    ensures
        easing_named(easing_name(e)) == Some(e),
{
    reveal_strlit("linear");
    reveal_strlit("in_sine");
    reveal_strlit("out_sine");
    reveal_strlit("in_out_sine");
    reveal_strlit("in_quad");
    reveal_strlit("out_quad");
    reveal_strlit("in_out_quad");
    reveal_strlit("in_cubic");
    reveal_strlit("out_cubic");
    reveal_strlit("in_out_cubic");
    reveal_strlit("in_quart");
    reveal_strlit("out_quart");
    reveal_strlit("in_out_quart");
    reveal_strlit("in_quint");
    reveal_strlit("out_quint");
    reveal_strlit("in_out_quint");
    reveal_strlit("in_expo");
    reveal_strlit("out_expo");
    reveal_strlit("in_out_expo");
    reveal_strlit("in_circ");
    reveal_strlit("out_circ");
    reveal_strlit("in_out_circ");
    reveal_strlit("in_back");
    reveal_strlit("out_back");
    reveal_strlit("in_out_back");
    reveal_strlit("in_elastic");
    reveal_strlit("out_elastic");
    reveal_strlit("in_out_elastic");
    reveal_strlit("in_bounce");
    reveal_strlit("out_bounce");
    reveal_strlit("in_out_bounce");
    match e {
        Easing::Linear => {},
        Easing::InSine => {
            assert("in_sine"@.len() != "linear"@.len());
        },
        Easing::OutSine => {
            assert("out_sine"@.len() != "linear"@.len());
            assert("out_sine"@.len() != "in_sine"@.len());
        },
        Easing::InOutSine => {
            assert("in_out_sine"@.len() != "linear"@.len());
            assert("in_out_sine"@.len() != "in_sine"@.len());
            assert("in_out_sine"@.len() != "out_sine"@.len());
        },
        Easing::InQuad => {
            assert("in_quad"@.len() != "linear"@.len());
            assert("in_quad"@[3] != "in_sine"@[3]);
            assert("in_quad"@.len() != "out_sine"@.len());
            assert("in_quad"@.len() != "in_out_sine"@.len());
        },
        Easing::OutQuad => {
            assert("out_quad"@.len() != "linear"@.len());
            assert("out_quad"@.len() != "in_sine"@.len());
            assert("out_quad"@[4] != "out_sine"@[4]);
            assert("out_quad"@.len() != "in_out_sine"@.len());
            assert("out_quad"@.len() != "in_quad"@.len());
        },
        Easing::InOutQuad => {
            assert("in_out_quad"@.len() != "linear"@.len());
            assert("in_out_quad"@.len() != "in_sine"@.len());
            assert("in_out_quad"@.len() != "out_sine"@.len());
            assert("in_out_quad"@[7] != "in_out_sine"@[7]);
            assert("in_out_quad"@.len() != "in_quad"@.len());
            assert("in_out_quad"@.len() != "out_quad"@.len());
        },
        Easing::InCubic => {
            assert("in_cubic"@.len() != "linear"@.len());
            assert("in_cubic"@.len() != "in_sine"@.len());
            assert("in_cubic"@[0] != "out_sine"@[0]);
            assert("in_cubic"@.len() != "in_out_sine"@.len());
            assert("in_cubic"@.len() != "in_quad"@.len());
            assert("in_cubic"@[0] != "out_quad"@[0]);
            assert("in_cubic"@.len() != "in_out_quad"@.len());
        },
        Easing::OutCubic => {
            assert("out_cubic"@.len() != "linear"@.len());
            assert("out_cubic"@.len() != "in_sine"@.len());
            assert("out_cubic"@.len() != "out_sine"@.len());
            assert("out_cubic"@.len() != "in_out_sine"@.len());
            assert("out_cubic"@.len() != "in_quad"@.len());
            assert("out_cubic"@.len() != "out_quad"@.len());
            assert("out_cubic"@.len() != "in_out_quad"@.len());
            assert("out_cubic"@.len() != "in_cubic"@.len());
        },
        Easing::InOutCubic => {
            assert("in_out_cubic"@.len() != "linear"@.len());
            assert("in_out_cubic"@.len() != "in_sine"@.len());
            assert("in_out_cubic"@.len() != "out_sine"@.len());
            assert("in_out_cubic"@.len() != "in_out_sine"@.len());
            assert("in_out_cubic"@.len() != "in_quad"@.len());
            assert("in_out_cubic"@.len() != "out_quad"@.len());
            assert("in_out_cubic"@.len() != "in_out_quad"@.len());
            assert("in_out_cubic"@.len() != "in_cubic"@.len());
            assert("in_out_cubic"@.len() != "out_cubic"@.len());
        },
        Easing::InQuart => {
            assert("in_quart"@.len() != "linear"@.len());
            assert("in_quart"@.len() != "in_sine"@.len());
            assert("in_quart"@[0] != "out_sine"@[0]);
            assert("in_quart"@.len() != "in_out_sine"@.len());
            assert("in_quart"@.len() != "in_quad"@.len());
            assert("in_quart"@[0] != "out_quad"@[0]);
            assert("in_quart"@.len() != "in_out_quad"@.len());
            assert("in_quart"@[3] != "in_cubic"@[3]);
            assert("in_quart"@.len() != "out_cubic"@.len());
            assert("in_quart"@.len() != "in_out_cubic"@.len());
        },
        Easing::OutQuart => {
            assert("out_quart"@.len() != "linear"@.len());
            assert("out_quart"@.len() != "in_sine"@.len());
            assert("out_quart"@.len() != "out_sine"@.len());
            assert("out_quart"@.len() != "in_out_sine"@.len());
            assert("out_quart"@.len() != "in_quad"@.len());
            assert("out_quart"@.len() != "out_quad"@.len());
            assert("out_quart"@.len() != "in_out_quad"@.len());
            assert("out_quart"@.len() != "in_cubic"@.len());
            assert("out_quart"@[4] != "out_cubic"@[4]);
            assert("out_quart"@.len() != "in_out_cubic"@.len());
            assert("out_quart"@.len() != "in_quart"@.len());
        },
        Easing::InOutQuart => {
            assert("in_out_quart"@.len() != "linear"@.len());
            assert("in_out_quart"@.len() != "in_sine"@.len());
            assert("in_out_quart"@.len() != "out_sine"@.len());
            assert("in_out_quart"@.len() != "in_out_sine"@.len());
            assert("in_out_quart"@.len() != "in_quad"@.len());
            assert("in_out_quart"@.len() != "out_quad"@.len());
            assert("in_out_quart"@.len() != "in_out_quad"@.len());
            assert("in_out_quart"@.len() != "in_cubic"@.len());
            assert("in_out_quart"@.len() != "out_cubic"@.len());
            assert("in_out_quart"@[7] != "in_out_cubic"@[7]);
            assert("in_out_quart"@.len() != "in_quart"@.len());
            assert("in_out_quart"@.len() != "out_quart"@.len());
        },
        Easing::InQuint => {
            assert("in_quint"@.len() != "linear"@.len());
            assert("in_quint"@.len() != "in_sine"@.len());
            assert("in_quint"@[0] != "out_sine"@[0]);
            assert("in_quint"@.len() != "in_out_sine"@.len());
            assert("in_quint"@.len() != "in_quad"@.len());
            assert("in_quint"@[0] != "out_quad"@[0]);
            assert("in_quint"@.len() != "in_out_quad"@.len());
            assert("in_quint"@[3] != "in_cubic"@[3]);
            assert("in_quint"@.len() != "out_cubic"@.len());
            assert("in_quint"@.len() != "in_out_cubic"@.len());
            assert("in_quint"@[5] != "in_quart"@[5]);
            assert("in_quint"@.len() != "out_quart"@.len());
            assert("in_quint"@.len() != "in_out_quart"@.len());
        },
        Easing::OutQuint => {
            assert("out_quint"@.len() != "linear"@.len());
            assert("out_quint"@.len() != "in_sine"@.len());
            assert("out_quint"@.len() != "out_sine"@.len());
            assert("out_quint"@.len() != "in_out_sine"@.len());
            assert("out_quint"@.len() != "in_quad"@.len());
            assert("out_quint"@.len() != "out_quad"@.len());
            assert("out_quint"@.len() != "in_out_quad"@.len());
            assert("out_quint"@.len() != "in_cubic"@.len());
            assert("out_quint"@[4] != "out_cubic"@[4]);
            assert("out_quint"@.len() != "in_out_cubic"@.len());
            assert("out_quint"@.len() != "in_quart"@.len());
            assert("out_quint"@[6] != "out_quart"@[6]);
            assert("out_quint"@.len() != "in_out_quart"@.len());
            assert("out_quint"@.len() != "in_quint"@.len());
        },
        Easing::InOutQuint => {
            assert("in_out_quint"@.len() != "linear"@.len());
            assert("in_out_quint"@.len() != "in_sine"@.len());
            assert("in_out_quint"@.len() != "out_sine"@.len());
            assert("in_out_quint"@.len() != "in_out_sine"@.len());
            assert("in_out_quint"@.len() != "in_quad"@.len());
            assert("in_out_quint"@.len() != "out_quad"@.len());
            assert("in_out_quint"@.len() != "in_out_quad"@.len());
            assert("in_out_quint"@.len() != "in_cubic"@.len());
            assert("in_out_quint"@.len() != "out_cubic"@.len());
            assert("in_out_quint"@[7] != "in_out_cubic"@[7]);
            assert("in_out_quint"@.len() != "in_quart"@.len());
            assert("in_out_quint"@.len() != "out_quart"@.len());
            assert("in_out_quint"@[9] != "in_out_quart"@[9]);
            assert("in_out_quint"@.len() != "in_quint"@.len());
            assert("in_out_quint"@.len() != "out_quint"@.len());
        },
        Easing::InExpo => {
            assert("in_expo"@.len() != "linear"@.len());
            assert("in_expo"@[3] != "in_sine"@[3]);
            assert("in_expo"@.len() != "out_sine"@.len());
            assert("in_expo"@.len() != "in_out_sine"@.len());
            assert("in_expo"@[3] != "in_quad"@[3]);
            assert("in_expo"@.len() != "out_quad"@.len());
            assert("in_expo"@.len() != "in_out_quad"@.len());
            assert("in_expo"@.len() != "in_cubic"@.len());
            assert("in_expo"@.len() != "out_cubic"@.len());
            assert("in_expo"@.len() != "in_out_cubic"@.len());
            assert("in_expo"@.len() != "in_quart"@.len());
            assert("in_expo"@.len() != "out_quart"@.len());
            assert("in_expo"@.len() != "in_out_quart"@.len());
            assert("in_expo"@.len() != "in_quint"@.len());
            assert("in_expo"@.len() != "out_quint"@.len());
            assert("in_expo"@.len() != "in_out_quint"@.len());
        },
        Easing::OutExpo => {
            assert("out_expo"@.len() != "linear"@.len());
            assert("out_expo"@.len() != "in_sine"@.len());
            assert("out_expo"@[4] != "out_sine"@[4]);
            assert("out_expo"@.len() != "in_out_sine"@.len());
            assert("out_expo"@.len() != "in_quad"@.len());
            assert("out_expo"@[4] != "out_quad"@[4]);
            assert("out_expo"@.len() != "in_out_quad"@.len());
            assert("out_expo"@[0] != "in_cubic"@[0]);
            assert("out_expo"@.len() != "out_cubic"@.len());
            assert("out_expo"@.len() != "in_out_cubic"@.len());
            assert("out_expo"@[0] != "in_quart"@[0]);
            assert("out_expo"@.len() != "out_quart"@.len());
            assert("out_expo"@.len() != "in_out_quart"@.len());
            assert("out_expo"@[0] != "in_quint"@[0]);
            assert("out_expo"@.len() != "out_quint"@.len());
            assert("out_expo"@.len() != "in_out_quint"@.len());
            assert("out_expo"@.len() != "in_expo"@.len());
        },
        Easing::InOutExpo => {
            assert("in_out_expo"@.len() != "linear"@.len());
            assert("in_out_expo"@.len() != "in_sine"@.len());
            assert("in_out_expo"@.len() != "out_sine"@.len());
            assert("in_out_expo"@[7] != "in_out_sine"@[7]);
            assert("in_out_expo"@.len() != "in_quad"@.len());
            assert("in_out_expo"@.len() != "out_quad"@.len());
            assert("in_out_expo"@[7] != "in_out_quad"@[7]);
            assert("in_out_expo"@.len() != "in_cubic"@.len());
            assert("in_out_expo"@.len() != "out_cubic"@.len());
            assert("in_out_expo"@.len() != "in_out_cubic"@.len());
            assert("in_out_expo"@.len() != "in_quart"@.len());
            assert("in_out_expo"@.len() != "out_quart"@.len());
            assert("in_out_expo"@.len() != "in_out_quart"@.len());
            assert("in_out_expo"@.len() != "in_quint"@.len());
            assert("in_out_expo"@.len() != "out_quint"@.len());
            assert("in_out_expo"@.len() != "in_out_quint"@.len());
            assert("in_out_expo"@.len() != "in_expo"@.len());
            assert("in_out_expo"@.len() != "out_expo"@.len());
        },
        Easing::InCirc => {
            assert("in_circ"@.len() != "linear"@.len());
            assert("in_circ"@[3] != "in_sine"@[3]);
            assert("in_circ"@.len() != "out_sine"@.len());
            assert("in_circ"@.len() != "in_out_sine"@.len());
            assert("in_circ"@[3] != "in_quad"@[3]);
            assert("in_circ"@.len() != "out_quad"@.len());
            assert("in_circ"@.len() != "in_out_quad"@.len());
            assert("in_circ"@.len() != "in_cubic"@.len());
            assert("in_circ"@.len() != "out_cubic"@.len());
            assert("in_circ"@.len() != "in_out_cubic"@.len());
            assert("in_circ"@.len() != "in_quart"@.len());
            assert("in_circ"@.len() != "out_quart"@.len());
            assert("in_circ"@.len() != "in_out_quart"@.len());
            assert("in_circ"@.len() != "in_quint"@.len());
            assert("in_circ"@.len() != "out_quint"@.len());
            assert("in_circ"@.len() != "in_out_quint"@.len());
            assert("in_circ"@[3] != "in_expo"@[3]);
            assert("in_circ"@.len() != "out_expo"@.len());
            assert("in_circ"@.len() != "in_out_expo"@.len());
        },
        Easing::OutCirc => {
            assert("out_circ"@.len() != "linear"@.len());
            assert("out_circ"@.len() != "in_sine"@.len());
            assert("out_circ"@[4] != "out_sine"@[4]);
            assert("out_circ"@.len() != "in_out_sine"@.len());
            assert("out_circ"@.len() != "in_quad"@.len());
            assert("out_circ"@[4] != "out_quad"@[4]);
            assert("out_circ"@.len() != "in_out_quad"@.len());
            assert("out_circ"@[0] != "in_cubic"@[0]);
            assert("out_circ"@.len() != "out_cubic"@.len());
            assert("out_circ"@.len() != "in_out_cubic"@.len());
            assert("out_circ"@[0] != "in_quart"@[0]);
            assert("out_circ"@.len() != "out_quart"@.len());
            assert("out_circ"@.len() != "in_out_quart"@.len());
            assert("out_circ"@[0] != "in_quint"@[0]);
            assert("out_circ"@.len() != "out_quint"@.len());
            assert("out_circ"@.len() != "in_out_quint"@.len());
            assert("out_circ"@.len() != "in_expo"@.len());
            assert("out_circ"@[4] != "out_expo"@[4]);
            assert("out_circ"@.len() != "in_out_expo"@.len());
            assert("out_circ"@.len() != "in_circ"@.len());
        },
        Easing::InOutCirc => {
            assert("in_out_circ"@.len() != "linear"@.len());
            assert("in_out_circ"@.len() != "in_sine"@.len());
            assert("in_out_circ"@.len() != "out_sine"@.len());
            assert("in_out_circ"@[7] != "in_out_sine"@[7]);
            assert("in_out_circ"@.len() != "in_quad"@.len());
            assert("in_out_circ"@.len() != "out_quad"@.len());
            assert("in_out_circ"@[7] != "in_out_quad"@[7]);
            assert("in_out_circ"@.len() != "in_cubic"@.len());
            assert("in_out_circ"@.len() != "out_cubic"@.len());
            assert("in_out_circ"@.len() != "in_out_cubic"@.len());
            assert("in_out_circ"@.len() != "in_quart"@.len());
            assert("in_out_circ"@.len() != "out_quart"@.len());
            assert("in_out_circ"@.len() != "in_out_quart"@.len());
            assert("in_out_circ"@.len() != "in_quint"@.len());
            assert("in_out_circ"@.len() != "out_quint"@.len());
            assert("in_out_circ"@.len() != "in_out_quint"@.len());
            assert("in_out_circ"@.len() != "in_expo"@.len());
            assert("in_out_circ"@.len() != "out_expo"@.len());
            assert("in_out_circ"@[7] != "in_out_expo"@[7]);
            assert("in_out_circ"@.len() != "in_circ"@.len());
            assert("in_out_circ"@.len() != "out_circ"@.len());
        },
        Easing::InBack => {
            assert("in_back"@.len() != "linear"@.len());
            assert("in_back"@[3] != "in_sine"@[3]);
            assert("in_back"@.len() != "out_sine"@.len());
            assert("in_back"@.len() != "in_out_sine"@.len());
            assert("in_back"@[3] != "in_quad"@[3]);
            assert("in_back"@.len() != "out_quad"@.len());
            assert("in_back"@.len() != "in_out_quad"@.len());
            assert("in_back"@.len() != "in_cubic"@.len());
            assert("in_back"@.len() != "out_cubic"@.len());
            assert("in_back"@.len() != "in_out_cubic"@.len());
            assert("in_back"@.len() != "in_quart"@.len());
            assert("in_back"@.len() != "out_quart"@.len());
            assert("in_back"@.len() != "in_out_quart"@.len());
            assert("in_back"@.len() != "in_quint"@.len());
            assert("in_back"@.len() != "out_quint"@.len());
            assert("in_back"@.len() != "in_out_quint"@.len());
            assert("in_back"@[3] != "in_expo"@[3]);
            assert("in_back"@.len() != "out_expo"@.len());
            assert("in_back"@.len() != "in_out_expo"@.len());
            assert("in_back"@[3] != "in_circ"@[3]);
            assert("in_back"@.len() != "out_circ"@.len());
            assert("in_back"@.len() != "in_out_circ"@.len());
        },
        Easing::OutBack => {
            assert("out_back"@.len() != "linear"@.len());
            assert("out_back"@.len() != "in_sine"@.len());
            assert("out_back"@[4] != "out_sine"@[4]);
            assert("out_back"@.len() != "in_out_sine"@.len());
            assert("out_back"@.len() != "in_quad"@.len());
            assert("out_back"@[4] != "out_quad"@[4]);
            assert("out_back"@.len() != "in_out_quad"@.len());
            assert("out_back"@[0] != "in_cubic"@[0]);
            assert("out_back"@.len() != "out_cubic"@.len());
            assert("out_back"@.len() != "in_out_cubic"@.len());
            assert("out_back"@[0] != "in_quart"@[0]);
            assert("out_back"@.len() != "out_quart"@.len());
            assert("out_back"@.len() != "in_out_quart"@.len());
            assert("out_back"@[0] != "in_quint"@[0]);
            assert("out_back"@.len() != "out_quint"@.len());
            assert("out_back"@.len() != "in_out_quint"@.len());
            assert("out_back"@.len() != "in_expo"@.len());
            assert("out_back"@[4] != "out_expo"@[4]);
            assert("out_back"@.len() != "in_out_expo"@.len());
            assert("out_back"@.len() != "in_circ"@.len());
            assert("out_back"@[4] != "out_circ"@[4]);
            assert("out_back"@.len() != "in_out_circ"@.len());
            assert("out_back"@.len() != "in_back"@.len());
        },
        Easing::InOutBack => {
            assert("in_out_back"@.len() != "linear"@.len());
            assert("in_out_back"@.len() != "in_sine"@.len());
            assert("in_out_back"@.len() != "out_sine"@.len());
            assert("in_out_back"@[7] != "in_out_sine"@[7]);
            assert("in_out_back"@.len() != "in_quad"@.len());
            assert("in_out_back"@.len() != "out_quad"@.len());
            assert("in_out_back"@[7] != "in_out_quad"@[7]);
            assert("in_out_back"@.len() != "in_cubic"@.len());
            assert("in_out_back"@.len() != "out_cubic"@.len());
            assert("in_out_back"@.len() != "in_out_cubic"@.len());
            assert("in_out_back"@.len() != "in_quart"@.len());
            assert("in_out_back"@.len() != "out_quart"@.len());
            assert("in_out_back"@.len() != "in_out_quart"@.len());
            assert("in_out_back"@.len() != "in_quint"@.len());
            assert("in_out_back"@.len() != "out_quint"@.len());
            assert("in_out_back"@.len() != "in_out_quint"@.len());
            assert("in_out_back"@.len() != "in_expo"@.len());
            assert("in_out_back"@.len() != "out_expo"@.len());
            assert("in_out_back"@[7] != "in_out_expo"@[7]);
            assert("in_out_back"@.len() != "in_circ"@.len());
            assert("in_out_back"@.len() != "out_circ"@.len());
            assert("in_out_back"@[7] != "in_out_circ"@[7]);
            assert("in_out_back"@.len() != "in_back"@.len());
            assert("in_out_back"@.len() != "out_back"@.len());
        },
        Easing::InElastic => {
            assert("in_elastic"@.len() != "linear"@.len());
            assert("in_elastic"@.len() != "in_sine"@.len());
            assert("in_elastic"@.len() != "out_sine"@.len());
            assert("in_elastic"@.len() != "in_out_sine"@.len());
            assert("in_elastic"@.len() != "in_quad"@.len());
            assert("in_elastic"@.len() != "out_quad"@.len());
            assert("in_elastic"@.len() != "in_out_quad"@.len());
            assert("in_elastic"@.len() != "in_cubic"@.len());
            assert("in_elastic"@.len() != "out_cubic"@.len());
            assert("in_elastic"@.len() != "in_out_cubic"@.len());
            assert("in_elastic"@.len() != "in_quart"@.len());
            assert("in_elastic"@.len() != "out_quart"@.len());
            assert("in_elastic"@.len() != "in_out_quart"@.len());
            assert("in_elastic"@.len() != "in_quint"@.len());
            assert("in_elastic"@.len() != "out_quint"@.len());
            assert("in_elastic"@.len() != "in_out_quint"@.len());
            assert("in_elastic"@.len() != "in_expo"@.len());
            assert("in_elastic"@.len() != "out_expo"@.len());
            assert("in_elastic"@.len() != "in_out_expo"@.len());
            assert("in_elastic"@.len() != "in_circ"@.len());
            assert("in_elastic"@.len() != "out_circ"@.len());
            assert("in_elastic"@.len() != "in_out_circ"@.len());
            assert("in_elastic"@.len() != "in_back"@.len());
            assert("in_elastic"@.len() != "out_back"@.len());
            assert("in_elastic"@.len() != "in_out_back"@.len());
        },
        Easing::OutElastic => {
            assert("out_elastic"@.len() != "linear"@.len());
            assert("out_elastic"@.len() != "in_sine"@.len());
            assert("out_elastic"@.len() != "out_sine"@.len());
            assert("out_elastic"@[0] != "in_out_sine"@[0]);
            assert("out_elastic"@.len() != "in_quad"@.len());
            assert("out_elastic"@.len() != "out_quad"@.len());
            assert("out_elastic"@[0] != "in_out_quad"@[0]);
            assert("out_elastic"@.len() != "in_cubic"@.len());
            assert("out_elastic"@.len() != "out_cubic"@.len());
            assert("out_elastic"@.len() != "in_out_cubic"@.len());
            assert("out_elastic"@.len() != "in_quart"@.len());
            assert("out_elastic"@.len() != "out_quart"@.len());
            assert("out_elastic"@.len() != "in_out_quart"@.len());
            assert("out_elastic"@.len() != "in_quint"@.len());
            assert("out_elastic"@.len() != "out_quint"@.len());
            assert("out_elastic"@.len() != "in_out_quint"@.len());
            assert("out_elastic"@.len() != "in_expo"@.len());
            assert("out_elastic"@.len() != "out_expo"@.len());
            assert("out_elastic"@[0] != "in_out_expo"@[0]);
            assert("out_elastic"@.len() != "in_circ"@.len());
            assert("out_elastic"@.len() != "out_circ"@.len());
            assert("out_elastic"@[0] != "in_out_circ"@[0]);
            assert("out_elastic"@.len() != "in_back"@.len());
            assert("out_elastic"@.len() != "out_back"@.len());
            assert("out_elastic"@[0] != "in_out_back"@[0]);
            assert("out_elastic"@.len() != "in_elastic"@.len());
        },
        Easing::InOutElastic => {
            assert("in_out_elastic"@.len() != "linear"@.len());
            assert("in_out_elastic"@.len() != "in_sine"@.len());
            assert("in_out_elastic"@.len() != "out_sine"@.len());
            assert("in_out_elastic"@.len() != "in_out_sine"@.len());
            assert("in_out_elastic"@.len() != "in_quad"@.len());
            assert("in_out_elastic"@.len() != "out_quad"@.len());
            assert("in_out_elastic"@.len() != "in_out_quad"@.len());
            assert("in_out_elastic"@.len() != "in_cubic"@.len());
            assert("in_out_elastic"@.len() != "out_cubic"@.len());
            assert("in_out_elastic"@.len() != "in_out_cubic"@.len());
            assert("in_out_elastic"@.len() != "in_quart"@.len());
            assert("in_out_elastic"@.len() != "out_quart"@.len());
            assert("in_out_elastic"@.len() != "in_out_quart"@.len());
            assert("in_out_elastic"@.len() != "in_quint"@.len());
            assert("in_out_elastic"@.len() != "out_quint"@.len());
            assert("in_out_elastic"@.len() != "in_out_quint"@.len());
            assert("in_out_elastic"@.len() != "in_expo"@.len());
            assert("in_out_elastic"@.len() != "out_expo"@.len());
            assert("in_out_elastic"@.len() != "in_out_expo"@.len());
            assert("in_out_elastic"@.len() != "in_circ"@.len());
            assert("in_out_elastic"@.len() != "out_circ"@.len());
            assert("in_out_elastic"@.len() != "in_out_circ"@.len());
            assert("in_out_elastic"@.len() != "in_back"@.len());
            assert("in_out_elastic"@.len() != "out_back"@.len());
            assert("in_out_elastic"@.len() != "in_out_back"@.len());
            assert("in_out_elastic"@.len() != "in_elastic"@.len());
            assert("in_out_elastic"@.len() != "out_elastic"@.len());
        },
        Easing::InBounce => {
            assert("in_bounce"@.len() != "linear"@.len());
            assert("in_bounce"@.len() != "in_sine"@.len());
            assert("in_bounce"@.len() != "out_sine"@.len());
            assert("in_bounce"@.len() != "in_out_sine"@.len());
            assert("in_bounce"@.len() != "in_quad"@.len());
            assert("in_bounce"@.len() != "out_quad"@.len());
            assert("in_bounce"@.len() != "in_out_quad"@.len());
            assert("in_bounce"@.len() != "in_cubic"@.len());
            assert("in_bounce"@[0] != "out_cubic"@[0]);
            assert("in_bounce"@.len() != "in_out_cubic"@.len());
            assert("in_bounce"@.len() != "in_quart"@.len());
            assert("in_bounce"@[0] != "out_quart"@[0]);
            assert("in_bounce"@.len() != "in_out_quart"@.len());
            assert("in_bounce"@.len() != "in_quint"@.len());
            assert("in_bounce"@[0] != "out_quint"@[0]);
            assert("in_bounce"@.len() != "in_out_quint"@.len());
            assert("in_bounce"@.len() != "in_expo"@.len());
            assert("in_bounce"@.len() != "out_expo"@.len());
            assert("in_bounce"@.len() != "in_out_expo"@.len());
            assert("in_bounce"@.len() != "in_circ"@.len());
            assert("in_bounce"@.len() != "out_circ"@.len());
            assert("in_bounce"@.len() != "in_out_circ"@.len());
            assert("in_bounce"@.len() != "in_back"@.len());
            assert("in_bounce"@.len() != "out_back"@.len());
            assert("in_bounce"@.len() != "in_out_back"@.len());
            assert("in_bounce"@.len() != "in_elastic"@.len());
            assert("in_bounce"@.len() != "out_elastic"@.len());
            assert("in_bounce"@.len() != "in_out_elastic"@.len());
        },
        Easing::OutBounce => {
            assert("out_bounce"@.len() != "linear"@.len());
            assert("out_bounce"@.len() != "in_sine"@.len());
            assert("out_bounce"@.len() != "out_sine"@.len());
            assert("out_bounce"@.len() != "in_out_sine"@.len());
            assert("out_bounce"@.len() != "in_quad"@.len());
            assert("out_bounce"@.len() != "out_quad"@.len());
            assert("out_bounce"@.len() != "in_out_quad"@.len());
            assert("out_bounce"@.len() != "in_cubic"@.len());
            assert("out_bounce"@.len() != "out_cubic"@.len());
            assert("out_bounce"@.len() != "in_out_cubic"@.len());
            assert("out_bounce"@.len() != "in_quart"@.len());
            assert("out_bounce"@.len() != "out_quart"@.len());
            assert("out_bounce"@.len() != "in_out_quart"@.len());
            assert("out_bounce"@.len() != "in_quint"@.len());
            assert("out_bounce"@.len() != "out_quint"@.len());
            assert("out_bounce"@.len() != "in_out_quint"@.len());
            assert("out_bounce"@.len() != "in_expo"@.len());
            assert("out_bounce"@.len() != "out_expo"@.len());
            assert("out_bounce"@.len() != "in_out_expo"@.len());
            assert("out_bounce"@.len() != "in_circ"@.len());
            assert("out_bounce"@.len() != "out_circ"@.len());
            assert("out_bounce"@.len() != "in_out_circ"@.len());
            assert("out_bounce"@.len() != "in_back"@.len());
            assert("out_bounce"@.len() != "out_back"@.len());
            assert("out_bounce"@.len() != "in_out_back"@.len());
            assert("out_bounce"@[0] != "in_elastic"@[0]);
            assert("out_bounce"@.len() != "out_elastic"@.len());
            assert("out_bounce"@.len() != "in_out_elastic"@.len());
            assert("out_bounce"@.len() != "in_bounce"@.len());
        },
        Easing::InOutBounce => {
            assert("in_out_bounce"@.len() != "linear"@.len());
            assert("in_out_bounce"@.len() != "in_sine"@.len());
            assert("in_out_bounce"@.len() != "out_sine"@.len());
            assert("in_out_bounce"@.len() != "in_out_sine"@.len());
            assert("in_out_bounce"@.len() != "in_quad"@.len());
            assert("in_out_bounce"@.len() != "out_quad"@.len());
            assert("in_out_bounce"@.len() != "in_out_quad"@.len());
            assert("in_out_bounce"@.len() != "in_cubic"@.len());
            assert("in_out_bounce"@.len() != "out_cubic"@.len());
            assert("in_out_bounce"@.len() != "in_out_cubic"@.len());
            assert("in_out_bounce"@.len() != "in_quart"@.len());
            assert("in_out_bounce"@.len() != "out_quart"@.len());
            assert("in_out_bounce"@.len() != "in_out_quart"@.len());
            assert("in_out_bounce"@.len() != "in_quint"@.len());
            assert("in_out_bounce"@.len() != "out_quint"@.len());
            assert("in_out_bounce"@.len() != "in_out_quint"@.len());
            assert("in_out_bounce"@.len() != "in_expo"@.len());
            assert("in_out_bounce"@.len() != "out_expo"@.len());
            assert("in_out_bounce"@.len() != "in_out_expo"@.len());
            assert("in_out_bounce"@.len() != "in_circ"@.len());
            assert("in_out_bounce"@.len() != "out_circ"@.len());
            assert("in_out_bounce"@.len() != "in_out_circ"@.len());
            assert("in_out_bounce"@.len() != "in_back"@.len());
            assert("in_out_bounce"@.len() != "out_back"@.len());
            assert("in_out_bounce"@.len() != "in_out_back"@.len());
            assert("in_out_bounce"@.len() != "in_elastic"@.len());
            assert("in_out_bounce"@.len() != "out_elastic"@.len());
            assert("in_out_bounce"@.len() != "in_out_elastic"@.len());
            assert("in_out_bounce"@.len() != "in_bounce"@.len());
            assert("in_out_bounce"@.len() != "out_bounce"@.len());
        },
    }
}

/// Law: a normalized name names an easing only when it is that easing's name, so
/// different names name different easings and every other name names none.
pub proof fn lemma_named_only_by_name(s: Seq<char>)
    ensures
        easing_named(s) matches Some(e) ==> s == easing_name(e),
{
}
} // verus!
