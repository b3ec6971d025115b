use vstd::prelude::*;

verus! {

#[verifier::external_type_specification]
#[verifier::external_body]
pub struct ExEndpoint(tonic::transport::Endpoint);

#[verifier::external_type_specification]
#[verifier::external_body]
pub struct ExInvalidUri(tonic::codegen::http::uri::InvalidUri);

/// Name for whether `tonic::transport::Channel::from_shared` accepts the text `s`, that is,
/// whether `http::Uri` parses it as a URI.
pub uninterp spec fn uri_accepted(s: Seq<char>) -> bool;

/// Name for the endpoint that `tonic::transport::Channel::from_shared` builds from the text
/// `s` where it accepts it: the parse of `s` as a URI, with tonic's default settings.
pub uninterp spec fn endpoint_for(s: Seq<char>) -> tonic::transport::Endpoint;

/// Calls `tonic::transport::Channel::from_shared` on the bytes of `s`. The contract claims
/// that it succeeds exactly when the text is accepted as a URI (the name `uri_accepted`), and
/// that the endpoint it then builds is a function of the text alone (the name `endpoint_for`).
#[verifier::external_body]
fn channel_from_shared(s: String) -> (r: Result<tonic::transport::Endpoint, tonic::codegen::http::uri::InvalidUri>)
    ensures
        r is Ok <==> uri_accepted(s@),
        r matches Ok(ep) ==> ep == endpoint_for(s@),
{
    tonic::transport::Channel::from_shared(s)
}

/// Why the command line gives no flags.
pub enum FlagError {
    /// `--help` was given.
    Help,
    /// No `--id` with a non-empty value was given.
    MissingId,
    /// No `--uri` with a non-empty value was given.
    MissingUri,
    /// The value of `--uri` is not a URI.
    InvalidUri(String),
}

impl FlagError {
    /// The exit status that goes with the error after the usage text is shown.
    pub fn code(&self) -> (c: i32)
        ensures
            c == match self {
                FlagError::Help => 0i32,
                FlagError::MissingId => 1i32,
                FlagError::MissingUri => 2i32,
                FlagError::InvalidUri(_) => 3i32,
            },
    {
        match self {
            FlagError::Help => 0,
            FlagError::MissingId => 1,
            FlagError::MissingUri => 2,
            FlagError::InvalidUri(_) => 3,
        }
    }
}

/// The extension's identity and the address of the host it reports to.
pub struct Flags {
    pub id: String,
    pub endpoint: tonic::transport::Endpoint,
}

/// The value given to `flag` on the command line: the argument after the last occurrence of
/// `flag` that has one after it, the empty text where there is none.
pub open spec fn flag_value(args: Seq<Seq<char>>, flag: Seq<char>) -> Seq<char>
    decreases args.len(),
{
    if args.len() < 2 {
        Seq::empty()
    } else if args[args.len() - 2] == flag {
        args[args.len() - 1]
    } else {
        flag_value(args.drop_last(), flag)
    }
}

pub open spec fn help_flag() -> Seq<char> {
    seq!['-', '-', 'h', 'e', 'l', 'p']
}

pub open spec fn id_flag() -> Seq<char> {
    seq!['-', '-', 'i', 'd']
}

pub open spec fn uri_flag() -> Seq<char> {
    seq!['-', '-', 'u', 'r', 'i']
}

proof fn lemma_flag_value_step(args: Seq<Seq<char>>, flag: Seq<char>, i: int)
    requires
        0 <= i < args.len(),
    ensures
        flag_value(args.take(i + 1), flag) == if i >= 1 && args[i - 1] == flag {
            args[i]
        } else {
            flag_value(args.take(i), flag)
        },
{
    let t = args.take(i + 1);
    if t.len() >= 2 {
        assert(t[t.len() - 2] == args[i - 1]);
        assert(t.drop_last() =~= args.take(i));
    } else {
        assert(args.take(i).len() < 2);
    }
}

impl Flags {
    /// Reads `--id <id>` and `--uri <uri>` from the command line (the last of each wins);
    /// `--help` anywhere asks for the usage text. Fails where the id or the URI is missing or
    /// empty, or the URI is not one.
    pub fn new(args: Vec<String>) -> (r: Result<Flags, FlagError>)
        ensures
            ({
                let a = args.deep_view();
                let id = flag_value(a, id_flag());
                let uri = flag_value(a, uri_flag());
                if a.contains(help_flag()) {
                    r matches Err(FlagError::Help)
                } else if id.len() == 0 {
                    r matches Err(FlagError::MissingId)
                } else if uri.len() == 0 {
                    r matches Err(FlagError::MissingUri)
                } else if !uri_accepted(uri) {
                    r matches Err(FlagError::InvalidUri(u)) && u@ == uri
                } else {
                    r matches Ok(f) && f.id@ == id && f.endpoint == endpoint_for(uri)
                }
            }),
    {
        let ghost a = args.deep_view();
        let help = "--help".to_owned();
        let id_key = "--id".to_owned();
        let uri_key = "--uri".to_owned();
        proof {
            reveal_strlit("--help");
            reveal_strlit("--id");
            reveal_strlit("--uri");
            assert(help@ =~= help_flag());
            assert(id_key@ =~= id_flag());
            assert(uri_key@ =~= uri_flag());
            assert(a.take(0) =~= Seq::<Seq<char>>::empty());
        }
        let mut id = String::new();
        let mut addr = String::new();
        let n = args.len();
        for i in 0..n
            invariant
                n == args@.len(),
                a == args.deep_view(),
                help@ == help_flag(),
                id_key@ == id_flag(),
                uri_key@ == uri_flag(),
                !a.take(i as int).contains(help_flag()),
                id@ == flag_value(a.take(i as int), id_flag()),
                addr@ == flag_value(a.take(i as int), uri_flag()),
        {
            proof {
                lemma_flag_value_step(a, id_flag(), i as int);
                lemma_flag_value_step(a, uri_flag(), i as int);
                assert(a[i as int] == args@[i as int]@);
                if i >= 1 {
                    assert(a[i - 1] == args@[i - 1]@);
                }
            }
            if args[i] == help {
                proof {
                    assert(a[i as int] == help_flag());
                    assert(a.contains(help_flag()));
                }
                return Err(FlagError::Help);
            }
            if i >= 1 && args[i - 1] == id_key {
                id = args[i].clone();
            }
            if i >= 1 && args[i - 1] == uri_key {
                addr = args[i].clone();
            }
            proof {
                assert(a.take(i + 1) =~= a.take(i as int).push(a[i as int]));
            }
        }
        proof {
            assert(a.take(n as int) =~= a);
        }
        if id.as_str().is_empty() {
            return Err(FlagError::MissingId);
        }
        if addr.as_str().is_empty() {
            return Err(FlagError::MissingUri);
        }
        match channel_from_shared(addr.clone()) {
            Ok(ep) => Ok(Flags { id, endpoint: ep }),
            Err(_) => Err(FlagError::InvalidUri(addr)),
        }
    }
}

} // verus!
