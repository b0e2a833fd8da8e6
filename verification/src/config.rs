//! Configuration of the AntTP server, from its command-line arguments.
use vstd::prelude::*;

verus! {

/// The argument at `position`, or `default` when there are not that many.
pub open spec fn arg_or(args: Seq<Seq<char>>, position: int, default: Seq<char>) -> Seq<char> {
    if position < args.len() {
        args[position]
    } else {
        default
    }
}

/// Configuration for the AntTP server: the socket address to bind to (as
/// text), the directory of static files and the wallet's private key.
pub struct AntTpConfig {
    /// The socket address to bind the server to.
    pub bind_addr: String,
    /// The directory to serve static files from.
    pub static_dir: String,
    /// The private key for the Autonomi Network wallet.
    pub wallet_private_key: String,
}

impl AntTpConfig {
    /// Creates a new AntTpConfig with the specified parameters.
    pub fn new(bind_addr: String, static_dir: String, wallet_private_key: String) -> (r: Self)
        ensures
            r == (AntTpConfig { bind_addr, static_dir, wallet_private_key }),
    {
        AntTpConfig { bind_addr, static_dir, wallet_private_key }
    }

    /// Reads the configuration from the command line, `args[0]` being the
    /// program's name: bind address (default `0.0.0.0:8080`), static file
    /// directory (default `static`) and wallet private key (default empty).
    pub fn from_args(args: Vec<String>) -> (r: AntTpConfig)
        ensures
            r.bind_addr@ == arg_or(args.deep_view(), 1, "0.0.0.0:8080"@),
            r.static_dir@ == arg_or(args.deep_view(), 2, "static"@),
            r.wallet_private_key@ == arg_or(args.deep_view(), 3, ""@),
            args.len() > 1 ==> r.bind_addr@ == args[1]@,
            args.len() > 2 ==> r.static_dir@ == args[2]@,
            args.len() > 3 ==> r.wallet_private_key@ == args[3]@,
            args.len() <= 3 ==> r.wallet_private_key@.len() == 0,
    {
        proof {
            reveal_strlit("");
        }
        let bind_addr = if args.len() > 1 {
            args[1].clone()
        } else {
            String::from_str("0.0.0.0:8080")
        };
        let static_dir = if args.len() > 2 {
            args[2].clone()
        } else {
            String::from_str("static")
        };
        let wallet_private_key = if args.len() > 3 {
            args[3].clone()
        } else {
            String::from_str("")
        };
        AntTpConfig { bind_addr, static_dir, wallet_private_key }
    }
}

/// The argument at a position that the command line has is that argument;
/// at any other position it is the default: a missing argument never takes
/// another argument's place.
pub proof fn law_missing_argument_is_the_default(args: Seq<Seq<char>>, position: int, default: Seq<char>)
    requires
        0 <= position,
    ensures
        position < args.len() ==> arg_or(args, position, default) == args[position],
        position >= args.len() ==> arg_or(args, position, default) == default,
{
}

/// Without a fourth argument the wallet key is empty, whatever the other
/// arguments are.
pub proof fn law_wallet_key_is_empty_without_fourth_argument(args: Seq<Seq<char>>)
    requires
        args.len() <= 3,
    ensures
        arg_or(args, 3, ""@).len() == 0,
{
    reveal_strlit("");
}

} // verus!
