use vstd::prelude::*;

verus! {

/// The viseme parameters of a VRChat avatar.
#[derive(PartialEq, Eq, Structural, Clone, Copy, Debug)]
pub enum Address {
    Viseme1,
    Viseme2,
    Viseme3,
    Viseme4,
    Viseme5,
}

/// The OSC address of a viseme parameter.
pub open spec fn viseme_address(a: Address) -> Seq<char> {
    let digit = match a {
        Address::Viseme1 => '1',
        Address::Viseme2 => '2',
        Address::Viseme3 => '3',
        Address::Viseme4 => '4',
        Address::Viseme5 => '5',
    };
    seq![
        '/', 'a', 'v', 'a', 't', 'a', 'r', '/', 'p', 'a', 'r', 'a', 'm', 'e', 't', 'e', 'r', 's', '/',
        'V', 'i', 's', 'e', 'm', 'e', digit,
    ]
}

impl Address {
    pub fn as_str(&self) -> (res: &'static str)
        ensures
            res@ == viseme_address(*self),
    {
        match self {
            Self::Viseme1 => {
                proof {
                    reveal_strlit("/avatar/parameters/Viseme1");
                }
                let s = "/avatar/parameters/Viseme1";
                assert(s@ =~= viseme_address(*self));
                s
            },
            Self::Viseme2 => {
                proof {
                    reveal_strlit("/avatar/parameters/Viseme2");
                }
                let s = "/avatar/parameters/Viseme2";
                assert(s@ =~= viseme_address(*self));
                s
            },
            Self::Viseme3 => {
                proof {
                    reveal_strlit("/avatar/parameters/Viseme3");
                }
                let s = "/avatar/parameters/Viseme3";
                assert(s@ =~= viseme_address(*self));
                s
            },
            Self::Viseme4 => {
                proof {
                    reveal_strlit("/avatar/parameters/Viseme4");
                }
                let s = "/avatar/parameters/Viseme4";
                assert(s@ =~= viseme_address(*self));
                s
            },
            Self::Viseme5 => {
                proof {
                    reveal_strlit("/avatar/parameters/Viseme5");
                }
                let s = "/avatar/parameters/Viseme5";
                assert(s@ =~= viseme_address(*self));
                s
            },
        }
    }
}

}
