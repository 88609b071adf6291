//! The service configuration as plain values, constructed once at process
//! start and passed by reference into whatever needs it.

use vstd::prelude::*;

use crate::text::{run_len, scan_until};

verus! {

/// Everything the service is configured with. The signing secret is the
/// raw byte string the deployment provides; the allow-list holds the
/// emails that authentication accepts.
pub struct Config {
    pub listen_addr: String,
    pub static_file_directory: String,
    pub allowed_emails: Vec<String>,
    pub github_client_id: String,
    pub github_client_secret: String,
    pub public_url: String,
    pub jwt_secret: Vec<u8>,
    pub s3_bucket_name: String,
}

/// The listen address used when the environment names none.
pub fn default_listen_addr() -> (r: String)
    ensures
        r@ == "0.0.0.0:3001"@,
{
    "0.0.0.0:3001".to_owned()
}

/// The static-asset directory used when the environment names none.
pub fn default_static_file_directory() -> (r: String)
    ensures
        r@ == "../frontend/build"@,
{
    "../frontend/build".to_owned()
}

/// The comma-separated pieces of `s`, in order, split exactly: no
/// trimming, and empty pieces kept.
pub open spec fn comma_split_at(s: Seq<char>, i: int) -> Seq<Seq<char>>
    decreases s.len() - i,
{
    if i < 0 || i > s.len() {
        Seq::empty()
    } else {
        let j = i + run_len(s, i, ',');
        if j > s.len() {
            Seq::empty()
        } else if j == s.len() {
            seq![s.subrange(i, j)]
        } else {
            seq![s.subrange(i, j)] + comma_split_at(s, j + 1)
        }
    }
}

/// Parses the configured allow-list: the raw comma-separated email
/// string, split exactly as given.
pub fn parse_allowed_emails(s: &str) -> (r: Vec<String>)
    ensures
        r.deep_view() == comma_split_at(s@, 0),
{
    let len = s.unicode_len();
    let mut out: Vec<String> = Vec::new();
    let mut i: usize = 0;
    proof {
        assert(out.deep_view() =~= Seq::<Seq<char>>::empty());
    }
    loop
        invariant_except_break
            comma_split_at(s@, 0) == out.deep_view() + comma_split_at(s@, i as int),
        invariant
            0 <= i <= len,
            len == s@.len(),
        ensures
            comma_split_at(s@, 0) == out.deep_view(),
        decreases len - i,
    {
        let ghost pre = out.deep_view();
        let j = scan_until(s, i, ',');
        let piece = s.substring_char(i, j).to_owned();
        out.push(piece);
        proof {
            assert(out.deep_view() =~= pre.push(s@.subrange(i as int, j as int)));
        }
        if j == len {
            proof {
                assert(comma_split_at(s@, i as int) =~= seq![
                    s@.subrange(i as int, j as int),
                ]);
                assert(pre + comma_split_at(s@, i as int) =~= out.deep_view());
            }
            break;
        }
        proof {
            assert(comma_split_at(s@, i as int) == seq![s@.subrange(i as int, j as int)]
                + comma_split_at(s@, j + 1));
            assert(pre + (seq![s@.subrange(i as int, j as int)] + comma_split_at(s@, j + 1))
                =~= out.deep_view() + comma_split_at(s@, j + 1));
        }
        i = j + 1;
    }
    out
}

} // verus!
