use crate::matches::{
    get_bool_opt, get_i32_opt, get_number, number_of, parse_chaos_options, parse_throttle_options,
    ArgError, ChaosOptions, Matches, ThrottleOptions,
};
use crate::parse::signed_text;
use crate::path::copy_bytes;
use vstd::prelude::*;
use vstd::string::StringSliceAdditionalSpecFns;

verus! {

/// What the command line says of the blob store. The behaviour on a put to
/// an existing key and the action of scrubbing are kept as the command
/// line wrote them.
#[derive(Debug)]
pub struct BlobstoreSettings {
    pub chaos: ChaosOptions,
    pub throttle: ThrottleOptions,
    pub manifold_api_key: Option<Vec<u8>>,
    pub manifold_use_cpp_client: bool,
    pub write_zstd_level: Option<i32>,
    pub attempt_zstd: bool,
    pub put_behaviour: Option<Vec<u8>>,
    pub scrub_action: Option<Vec<u8>>,
    pub scrub_grace: Option<u64>,
}

/// The view of an optional text.
pub open spec fn text_view(t: Option<Vec<u8>>) -> Option<Seq<u8>> {
    match t {
        Some(v) => Some(v@),
        None => None,
    }
}

/// One of the rates of injected failures is no number of 32 bits above zero.
pub open spec fn chaos_fails(m: Matches) -> bool {
    ||| number_of(m.value("blobstore-read-chaos-rate".spec_bytes()), 0xffff_ffff, true) is Err
    ||| number_of(m.value("blobstore-write-chaos-rate".spec_bytes()), 0xffff_ffff, true) is Err
}

/// The rates of injected failures are those of the command line.
pub open spec fn chaos_is(m: Matches, c: ChaosOptions) -> bool {
    &&& number_of(m.value("blobstore-read-chaos-rate".spec_bytes()), 0xffff_ffff, true) == Ok::<
        Option<u64>,
        ArgError,
    >(c.read_chaos)
    &&& number_of(m.value("blobstore-write-chaos-rate".spec_bytes()), 0xffff_ffff, true) == Ok::<
        Option<u64>,
        ArgError,
    >(c.write_chaos)
}

/// One of the limits is no number above zero of its size.
pub open spec fn throttle_fails(m: Matches) -> bool {
    ||| number_of(m.value("blobstore-read-qps".spec_bytes()), 0xffff_ffff, true) is Err
    ||| number_of(m.value("blobstore-write-qps".spec_bytes()), 0xffff_ffff, true) is Err
    ||| number_of(m.value("blobstore-read-bytes-s".spec_bytes()), usize::MAX as u64, true) is Err
    ||| number_of(m.value("blobstore-write-bytes-s".spec_bytes()), usize::MAX as u64, true) is Err
    ||| number_of(m.value("blobstore-read-burst-bytes-s".spec_bytes()), usize::MAX as u64, true) is Err
    ||| number_of(m.value("blobstore-write-burst-bytes-s".spec_bytes()), usize::MAX as u64, true) is Err
    ||| number_of(m.value("blobstore-bytes-min-throttle".spec_bytes()), usize::MAX as u64, true) is Err
}

/// The limits are those of the command line.
pub open spec fn throttle_is(m: Matches, t: ThrottleOptions) -> bool {
    &&& number_of(m.value("blobstore-read-qps".spec_bytes()), 0xffff_ffff, true) == Ok::<
        Option<u64>,
        ArgError,
    >(t.read_qps)
    &&& number_of(m.value("blobstore-write-qps".spec_bytes()), 0xffff_ffff, true) == Ok::<
        Option<u64>,
        ArgError,
    >(t.write_qps)
    &&& number_of(m.value("blobstore-read-bytes-s".spec_bytes()), usize::MAX as u64, true) == Ok::<
        Option<u64>,
        ArgError,
    >(t.read_bytes)
    &&& number_of(m.value("blobstore-write-bytes-s".spec_bytes()), usize::MAX as u64, true) == Ok::<
        Option<u64>,
        ArgError,
    >(t.write_bytes)
    &&& number_of(m.value("blobstore-read-burst-bytes-s".spec_bytes()), usize::MAX as u64, true) == Ok::<
        Option<u64>,
        ArgError,
    >(t.read_burst_bytes)
    &&& number_of(m.value("blobstore-write-burst-bytes-s".spec_bytes()), usize::MAX as u64, true) == Ok::<
        Option<u64>,
        ArgError,
    >(t.write_burst_bytes)
    &&& number_of(m.value("blobstore-bytes-min-throttle".spec_bytes()), usize::MAX as u64, true) == Ok::<
        Option<u64>,
        ArgError,
    >(t.bytes_min_count)
}

/// What an option that has to be there and holds `true` or `false` comes to.
pub open spec fn required_bool(value: Option<Seq<u8>>) -> Result<bool, ArgError> {
    match value {
        None => Err(ArgError::Missing),
        Some(v) => if v == "true".spec_bytes() {
            Ok(true)
        } else if v == "false".spec_bytes() {
            Ok(false)
        } else {
            Err(ArgError::NotBool)
        },
    }
}

/// What an option that holds a number with a sign of 32 bits comes to.
pub open spec fn level_of(value: Option<Seq<u8>>) -> Result<Option<i32>, ArgError> {
    match value {
        None => Ok(None),
        Some(v) => match signed_text(v) {
            Some(n) => if i32::MIN <= n <= i32::MAX {
                Ok(Some(n as i32))
            } else {
                Err(ArgError::NotANumber)
            },
            None => Err(ArgError::NotANumber),
        },
    }
}

/// What stands in the way of reading the settings of the blob store, if
/// anything: the first of
///
/// - a limit or a rate of failures that is no number above zero,
/// - the choice of the client that is neither `true` nor `false`, or absent,
/// - a level of compression that is no number of 32 bits,
/// - the choice of compression in the cache that is neither `true` nor
///   `false`, or absent,
/// - with `scrub`, a time of grace that is no number.
pub open spec fn blobstore_fault(m: Matches, scrub: bool) -> Option<ArgError> {
    if throttle_fails(m) || chaos_fails(m) {
        Some(ArgError::NotANumber)
    } else if required_bool(m.value("manifold-use-cpp-client".spec_bytes())) is Err {
        Some(required_bool(m.value("manifold-use-cpp-client".spec_bytes()))->Err_0)
    } else if level_of(m.value("blobstore-write-zstd-level".spec_bytes())) is Err {
        Some(ArgError::NotANumber)
    } else if required_bool(m.value("blobstore-cachelib-attempt-zstd".spec_bytes())) is Err {
        Some(required_bool(m.value("blobstore-cachelib-attempt-zstd".spec_bytes()))->Err_0)
    } else if scrub && number_of(m.value("blobstore-scrub-grace".spec_bytes()), u64::MAX, false) is Err {
        Some(ArgError::NotANumber)
    } else {
        None
    }
}

/// The settings are those of the command line.
pub open spec fn blobstore_is(m: Matches, scrub: bool, s: BlobstoreSettings) -> bool {
    &&& chaos_is(m, s.chaos)
    &&& throttle_is(m, s.throttle)
    &&& text_view(s.manifold_api_key) == m.value("manifold-api-key".spec_bytes())
    &&& required_bool(m.value("manifold-use-cpp-client".spec_bytes())) == Ok::<bool, ArgError>(
        s.manifold_use_cpp_client,
    )
    &&& level_of(m.value("blobstore-write-zstd-level".spec_bytes())) == Ok::<Option<i32>, ArgError>(
        s.write_zstd_level,
    )
    &&& required_bool(m.value("blobstore-cachelib-attempt-zstd".spec_bytes())) == Ok::<bool, ArgError>(
        s.attempt_zstd,
    )
    &&& text_view(s.put_behaviour) == m.value("blobstore-put-behaviour".spec_bytes())
    &&& if scrub {
        &&& text_view(s.scrub_action) == m.value("blobstore-scrub-action".spec_bytes())
        &&& number_of(m.value("blobstore-scrub-grace".spec_bytes()), u64::MAX, false) == Ok::<
            Option<u64>,
            ArgError,
        >(s.scrub_grace)
    } else {
        s.scrub_action is None && s.scrub_grace is None
    }
}

/// Reads an option that has to be there and holds `true` or `false`.
pub fn get_required_bool(matches: &Matches, key: &[u8]) -> (r: Result<bool, ArgError>)
    ensures
        r == required_bool(matches.value(key@)),
{
    match get_bool_opt(matches, key) {
        Ok(Some(b)) => Ok(b),
        Ok(None) => Err(ArgError::Missing),
        Err(e) => Err(e),
    }
}

/// The value of an option as text of its own, if the option has one.
pub fn get_text_opt(matches: &Matches, key: &[u8]) -> (r: Option<Vec<u8>>)
    ensures
        text_view(r) == matches.value(key@),
{
    match matches.value_of(key) {
        Some(v) => Some(copy_bytes(v)),
        None => None,
    }
}

/// Reads what the command line says of the blob store; with `scrub`, also
/// what it says of scrubbing. Fails with what `blobstore_fault` names.
pub fn parse_blobstore_options(matches: &Matches, scrub: bool) -> (r: Result<BlobstoreSettings, ArgError>)
    ensures
        match blobstore_fault(*matches, scrub) {
            Some(e) => r matches Err(x) && x == e,
            None => r matches Ok(s) && blobstore_is(*matches, scrub, s),
        },
{
    let throttle = match parse_throttle_options(matches) {
        Ok(t) => t,
        Err(e) => {
            return Err(e);
        },
    };
    let chaos = match parse_chaos_options(matches) {
        Ok(c) => c,
        Err(e) => {
            return Err(e);
        },
    };
    let manifold_api_key = get_text_opt(matches, "manifold-api-key".as_bytes());
    let manifold_use_cpp_client = match get_required_bool(matches, "manifold-use-cpp-client".as_bytes()) {
        Ok(b) => b,
        Err(e) => {
            return Err(e);
        },
    };
    let write_zstd_level = match get_i32_opt(matches, "blobstore-write-zstd-level".as_bytes()) {
        Ok(l) => l,
        Err(e) => {
            return Err(e);
        },
    };
    let attempt_zstd = match get_required_bool(matches, "blobstore-cachelib-attempt-zstd".as_bytes()) {
        Ok(b) => b,
        Err(e) => {
            return Err(e);
        },
    };
    let put_behaviour = get_text_opt(matches, "blobstore-put-behaviour".as_bytes());
    let mut scrub_action: Option<Vec<u8>> = None;
    let mut scrub_grace: Option<u64> = None;
    if scrub {
        scrub_action = get_text_opt(matches, "blobstore-scrub-action".as_bytes());
        scrub_grace = match get_number(matches, "blobstore-scrub-grace".as_bytes(), u64::MAX, false) {
            Ok(g) => g,
            Err(e) => {
                return Err(e);
            },
        };
    }
    Ok(
        BlobstoreSettings {
            chaos,
            throttle,
            manifold_api_key,
            manifold_use_cpp_client,
            write_zstd_level,
            attempt_zstd,
            put_behaviour,
            scrub_action,
            scrub_grace,
        },
    )
}

} // verus!
