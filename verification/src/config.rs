//! Runtime configuration. Reading the environment happens outside the
//! library; the library holds the values and resolves data-file paths.

use vstd::prelude::*;
use vstd::string::StringExecFns;
use crate::token::{chars_to_string, str_chars};

verus! {

/// The settings the program runs with. `data_dir` is the directory the
/// durable task and session files live in.
#[derive(Debug)]
pub struct Config {
    pub telegram_bot_token: String,
    pub node_env: String,
    pub port: u16,
    pub webhook_url: Option<String>,
    pub data_dir: String,
}

/// Joining a file name onto the data directory: an absolute name stands
/// alone; otherwise a separator is added unless the directory is empty or
/// already ends with one.
pub open spec fn join_path_spec(dir: Seq<char>, file: Seq<char>) -> Seq<char> {
    if file.len() > 0 && file[0] == '/' {
        file
    } else if dir.len() == 0 {
        file
    } else if dir.last() == '/' {
        dir + file
    } else {
        dir + seq!['/'] + file
    }
}

impl Config {
    /// The path of a data file inside the configured data directory.
    pub fn resolve_data_path(&self, filename: &str) -> (r: String)
        ensures
            r@ == join_path_spec(self.data_dir@, filename@),
    {
        let file = str_chars(filename);
        let dir = str_chars(self.data_dir.as_str());
        if file.len() > 0 && file[0] == '/' {
            return chars_to_string(&file);
        }
        if dir.len() == 0 {
            return chars_to_string(&file);
        }
        let mut out = dir;
        if out[out.len() - 1] != '/' {
            out.push('/');
            proof {
                assert(out@ =~= self.data_dir@ + seq!['/']);
            }
        }
        let mut k: usize = 0;
        let ghost base = out@;
        while k < file.len()
            invariant
                0 <= k <= file@.len(),
                out@ == base + file@.take(k as int),
            decreases file@.len() - k,
        {
            out.push(file[k]);
            proof {
                assert(base + file@.take(k + 1) =~= (base + file@.take(k as int)).push(
                    file@[k as int],
                ));
            }
            k += 1;
        }
        proof {
            assert(file@.take(file@.len() as int) =~= file@);
        }
        chars_to_string(&out)
    }
}

} // verus!
