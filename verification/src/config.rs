//! The service's configuration, taken from environment variables.
use crate::text::{
    digits_value, is_digits, joined, read_i32, read_number, same_text, signed_value, unsigned_value,
};
use vstd::prelude::*;

verus! {

/// The configuration.
#[derive(Debug)]
pub struct Config {
    /// The path of the embedding model's file.
    pub model_path: String,
    /// The directory of the data files.
    pub data_dir: String,
    /// The address to listen on.
    pub host: String,
    /// The port to listen on.
    pub port: u16,
    /// The number of inference threads.
    pub n_threads: i32,
    /// The model's context length.
    pub n_ctx: u32,
    /// The number of coordinates of a vector.
    pub dim: usize,
    /// The bits to which the index quantises a coordinate.
    pub bit_width: usize,
    /// The most characters that a chunk holds.
    pub max_chunk_chars: usize,
    /// The characters that a chunk repeats from the one before it.
    pub overlap_chars: usize,
    /// Whether the exact vectors are kept on disk, to rebuild the index from.
    pub store_raw_vectors: bool,
    /// The number of query vectors that are remembered.
    pub lru_capacity: usize,
}

/// A `Config` with its texts as sequences of characters.
pub struct ConfigView {
    pub model_path: Seq<char>,
    pub data_dir: Seq<char>,
    pub host: Seq<char>,
    pub port: u16,
    pub n_threads: i32,
    pub n_ctx: u32,
    pub dim: usize,
    pub bit_width: usize,
    pub max_chunk_chars: usize,
    pub overlap_chars: usize,
    pub store_raw_vectors: bool,
    pub lru_capacity: usize,
}

impl View for Config {
    type V = ConfigView;

    open spec fn view(&self) -> ConfigView {
        ConfigView {
            model_path: self.model_path@,
            data_dir: self.data_dir@,
            host: self.host@,
            port: self.port,
            n_threads: self.n_threads,
            n_ctx: self.n_ctx,
            dim: self.dim,
            bit_width: self.bit_width,
            max_chunk_chars: self.max_chunk_chars,
            overlap_chars: self.overlap_chars,
            store_raw_vectors: self.store_raw_vectors,
            lru_capacity: self.lru_capacity,
        }
    }
}

impl Clone for Config {
    fn clone(&self) -> (r: Self)
        ensures
            r@ == self@,
    {
        Self {
            model_path: self.model_path.clone(),
            data_dir: self.data_dir.clone(),
            host: self.host.clone(),
            port: self.port,
            n_threads: self.n_threads,
            n_ctx: self.n_ctx,
            dim: self.dim,
            bit_width: self.bit_width,
            max_chunk_chars: self.max_chunk_chars,
            overlap_chars: self.overlap_chars,
            store_raw_vectors: self.store_raw_vectors,
            lru_capacity: self.lru_capacity,
        }
    }
}

/// The variables' names and values as sequences of characters.
pub open spec fn texts(vars: Seq<(String, String)>) -> Seq<(Seq<char>, Seq<char>)> {
    vars.map_values(|v: (String, String)| (v.0@, v.1@))
}

/// The value of the first variable with this name, or else the default.
pub open spec fn value_or(
    vars: Seq<(Seq<char>, Seq<char>)>,
    name: Seq<char>,
    default: Seq<char>,
) -> Seq<char>
    decreases vars.len(),
{
    if vars.len() == 0 {
        default
    } else if vars[0].0 == name {
        vars[0].1
    } else {
        value_or(vars.drop_first(), name, default)
    }
}

/// The number that a variable holds, if it holds one up to `max`.
pub open spec fn number_or(
    vars: Seq<(Seq<char>, Seq<char>)>,
    name: Seq<char>,
    default: Seq<char>,
    max: nat,
) -> Option<nat> {
    unsigned_value(value_or(vars, name, default), max)
}

/// The truth value that a variable holds, if it holds `true` or `false`.
pub open spec fn flag_or(
    vars: Seq<(Seq<char>, Seq<char>)>,
    name: Seq<char>,
    default: Seq<char>,
) -> Option<bool> {
    let v = value_or(vars, name, default);
    if v == "true"@ {
        Some(true)
    } else if v == "false"@ {
        Some(false)
    } else {
        None
    }
}

/// The configuration that the variables give, or the complaint about the first
/// one that cannot be read.
pub open spec fn config_of(vars: Seq<(Seq<char>, Seq<char>)>) -> Result<ConfigView, Seq<char>> {
    let number = "必须是数字"@;
    let port = number_or(vars, "RAG_PORT"@, "3000"@, u16::MAX as nat);
    let n_threads = signed_value(
        value_or(vars, "RAG_N_THREADS"@, "4"@),
        i32::MIN as int,
        i32::MAX as nat,
    );
    let n_ctx = number_or(vars, "RAG_N_CTX"@, "512"@, u32::MAX as nat);
    let dim = number_or(vars, "RAG_DIM"@, "512"@, usize::MAX as nat);
    let bit_width = number_or(vars, "RAG_BIT_WIDTH"@, "4"@, usize::MAX as nat);
    let max_chunk_chars = number_or(vars, "RAG_MAX_CHUNK_CHARS"@, "260"@, usize::MAX as nat);
    let overlap_chars = number_or(vars, "RAG_OVERLAP_CHARS"@, "50"@, usize::MAX as nat);
    let store_raw_vectors = flag_or(vars, "RAG_STORE_RAW_VECTORS"@, "true"@);
    let lru_capacity = number_or(vars, "RAG_LRU_CAPACITY"@, "1024"@, usize::MAX as nat);
    if port is None {
        Err("RAG_PORT "@ + number)
    } else if n_threads is None {
        Err("RAG_N_THREADS "@ + number)
    } else if n_ctx is None {
        Err("RAG_N_CTX "@ + number)
    } else if dim is None {
        Err("RAG_DIM "@ + number)
    } else if bit_width is None {
        Err("RAG_BIT_WIDTH "@ + number)
    } else if max_chunk_chars is None {
        Err("RAG_MAX_CHUNK_CHARS "@ + number)
    } else if overlap_chars is None {
        Err("RAG_OVERLAP_CHARS "@ + number)
    } else if store_raw_vectors is None {
        Err("RAG_STORE_RAW_VECTORS "@ + "必须是 true 或 false"@)
    } else if lru_capacity is None {
        Err("RAG_LRU_CAPACITY "@ + number)
    } else {
        Ok(
            ConfigView {
                model_path: value_or(
                    vars,
                    "RAG_MODEL_PATH"@,
                    "models/bge-small-zh-v1.5-q8_0.gguf"@,
                ),
                data_dir: value_or(vars, "RAG_DATA_DIR"@, "data"@),
                host: value_or(vars, "RAG_HOST"@, "127.0.0.1"@),
                port: port->0 as u16,
                n_threads: n_threads->0 as i32,
                n_ctx: n_ctx->0 as u32,
                dim: dim->0 as usize,
                bit_width: bit_width->0 as usize,
                max_chunk_chars: max_chunk_chars->0 as usize,
                overlap_chars: overlap_chars->0 as usize,
                store_raw_vectors: store_raw_vectors->0,
                lru_capacity: lru_capacity->0 as usize,
            },
        )
    }
}

/// The value of the first variable with this name, or else the default.
fn env_or(vars: &[(String, String)], key: &str, default: &str) -> (r: String)
    ensures
        r@ == value_or(texts(vars@), key@, default@),
{
    let mut i: usize = 0;
    proof {
        assert(texts(vars@).skip(0) =~= texts(vars@));
    }
    while i < vars.len()
        invariant
            i <= vars@.len(),
            value_or(texts(vars@).skip(i as int), key@, default@) == value_or(
                texts(vars@),
                key@,
                default@,
            ),
        decreases vars@.len() - i,
    {
        if same_text(vars[i].0.as_str(), key) {
            return vars[i].1.clone();
        }
        proof {
            assert(texts(vars@).skip(i as int).drop_first() =~= texts(vars@).skip(i as int + 1));
        }
        i += 1;
    }
    default.to_owned()
}

fn env_number(vars: &[(String, String)], key: &str, default: &str, max: u64) -> (r: Option<u64>)
    ensures
        match r {
            Some(n) => number_or(texts(vars@), key@, default@, max as nat) == Some(n as nat) && n
                <= max,
            None => number_or(texts(vars@), key@, default@, max as nat) is None,
        },
{
    let v = env_or(vars, key, default);
    read_number(v.as_str(), max)
}

fn not_a_number(key: &str) -> (r: String)
    ensures
        r@ == key@ + "必须是数字"@,
{
    joined(key, "必须是数字")
}

impl Config {
    /// The configuration that the environment variables in `vars` give: each has
    /// a default, and the first one that cannot be read is complained about.
    pub fn from_env(vars: &[(String, String)]) -> (r: Result<Self, String>)
        ensures
            match (r, config_of(texts(vars@))) {
                (Ok(c), Ok(v)) => c@ == v,
                (Err(m), Err(t)) => m@ == t,
                _ => false,
            },
    {
        let model_path = env_or(vars, "RAG_MODEL_PATH", "models/bge-small-zh-v1.5-q8_0.gguf");
        let data_dir = env_or(vars, "RAG_DATA_DIR", "data");
        let host = env_or(vars, "RAG_HOST", "127.0.0.1");
        let port: u16 = match env_number(vars, "RAG_PORT", "3000", u16::MAX as u64) {
            Some(n) => n as u16,
            None => return Err(not_a_number("RAG_PORT ")),
        };
        let n_threads: i32 = match read_i32(env_or(vars, "RAG_N_THREADS", "4").as_str()) {
            Some(n) => n,
            None => return Err(not_a_number("RAG_N_THREADS ")),
        };
        let n_ctx: u32 = match env_number(vars, "RAG_N_CTX", "512", u32::MAX as u64) {
            Some(n) => n as u32,
            None => return Err(not_a_number("RAG_N_CTX ")),
        };
        let dim: usize = match env_number(vars, "RAG_DIM", "512", usize::MAX as u64) {
            Some(n) => n as usize,
            None => return Err(not_a_number("RAG_DIM ")),
        };
        let bit_width: usize = match env_number(vars, "RAG_BIT_WIDTH", "4", usize::MAX as u64) {
            Some(n) => n as usize,
            None => return Err(not_a_number("RAG_BIT_WIDTH ")),
        };
        let max_chunk_chars: usize = match env_number(
            vars,
            "RAG_MAX_CHUNK_CHARS",
            "260",
            usize::MAX as u64,
        ) {
            Some(n) => n as usize,
            None => return Err(not_a_number("RAG_MAX_CHUNK_CHARS ")),
        };
        let overlap_chars: usize = match env_number(
            vars,
            "RAG_OVERLAP_CHARS",
            "50",
            usize::MAX as u64,
        ) {
            Some(n) => n as usize,
            None => return Err(not_a_number("RAG_OVERLAP_CHARS ")),
        };
        let raw = env_or(vars, "RAG_STORE_RAW_VECTORS", "true");
        proof {
            reveal_strlit("true");
            reveal_strlit("false");
            assert("true"@.len() != "false"@.len());
        }
        let store_raw_vectors: bool = if same_text(raw.as_str(), "true") {
            true
        } else if same_text(raw.as_str(), "false") {
            false
        } else {
            return Err(joined("RAG_STORE_RAW_VECTORS ", "必须是 true 或 false"));
        };
        let lru_capacity: usize = match env_number(
            vars,
            "RAG_LRU_CAPACITY",
            "1024",
            usize::MAX as u64,
        ) {
            Some(n) => n as usize,
            None => return Err(not_a_number("RAG_LRU_CAPACITY ")),
        };
        Ok(
            Self {
                model_path,
                data_dir,
                host,
                port,
                n_threads,
                n_ctx,
                dim,
                bit_width,
                max_chunk_chars,
                overlap_chars,
                store_raw_vectors,
                lru_capacity,
            },
        )
    }
}

/// A variable that is set counts, the first one where it is set twice, and the default counts only
/// where it is not set.
pub proof fn law_first_variable_counts(
    vars: Seq<(Seq<char>, Seq<char>)>,
    name: Seq<char>,
    default: Seq<char>,
    i: int,
)
    requires
        0 <= i <= vars.len(),
        forall|k: int| 0 <= k < i ==> (#[trigger] vars[k]).0 != name,
        i < vars.len() ==> vars[i].0 == name,
    ensures
        value_or(vars, name, default) == if i < vars.len() {
            vars[i].1
        } else {
            default
        },
    decreases vars.len(),
{
    if i > 0 {
        let rest = vars.drop_first();
        assert(vars[0].0 != name);
        assert forall|k: int| 0 <= k < i - 1 implies (#[trigger] rest[k]).0 != name by {
            assert(rest[k] == vars[k + 1]);
        }
        law_first_variable_counts(rest, name, default, i - 1);
    }
}

/// Each field of the configuration is what its own variable says, or its default: numbers are
/// read as numbers within the bounds of the field, and whether exact vectors are kept from `true`
/// or `false`. There is no configuration exactly where one of them cannot be read.
pub proof fn law_fields_from_variables(vars: Seq<(Seq<char>, Seq<char>)>)
    ensures
        config_of(vars) matches Ok(c) ==> {
            let raw = value_or(vars, "RAG_STORE_RAW_VECTORS"@, "true"@);
            &&& c.model_path == value_or(
                vars,
                "RAG_MODEL_PATH"@,
                "models/bge-small-zh-v1.5-q8_0.gguf"@,
            )
            &&& c.data_dir == value_or(vars, "RAG_DATA_DIR"@, "data"@)
            &&& c.host == value_or(vars, "RAG_HOST"@, "127.0.0.1"@)
            &&& unsigned_value(value_or(vars, "RAG_PORT"@, "3000"@), 65535) == Some(c.port as nat)
            &&& signed_value(
                value_or(vars, "RAG_N_THREADS"@, "4"@),
                -0x8000_0000,
                0x7fff_ffff,
            ) == Some(c.n_threads as int)
            &&& unsigned_value(value_or(vars, "RAG_N_CTX"@, "512"@), 0xffff_ffff) == Some(
                c.n_ctx as nat,
            )
            &&& unsigned_value(value_or(vars, "RAG_DIM"@, "512"@), usize::MAX as nat) == Some(
                c.dim as nat,
            )
            &&& unsigned_value(value_or(vars, "RAG_BIT_WIDTH"@, "4"@), usize::MAX as nat) == Some(
                c.bit_width as nat,
            )
            &&& unsigned_value(
                value_or(vars, "RAG_MAX_CHUNK_CHARS"@, "260"@),
                usize::MAX as nat,
            ) == Some(c.max_chunk_chars as nat)
            &&& unsigned_value(value_or(vars, "RAG_OVERLAP_CHARS"@, "50"@), usize::MAX as nat)
                == Some(c.overlap_chars as nat)
            &&& unsigned_value(value_or(vars, "RAG_LRU_CAPACITY"@, "1024"@), usize::MAX as nat)
                == Some(c.lru_capacity as nat)
            &&& c.store_raw_vectors <==> raw == "true"@
            &&& !c.store_raw_vectors ==> raw == "false"@
        },
        config_of(vars) is Err <==> {
            let raw = value_or(vars, "RAG_STORE_RAW_VECTORS"@, "true"@);
            let max = usize::MAX as nat;
            ||| unsigned_value(value_or(vars, "RAG_PORT"@, "3000"@), 65535) is None
            ||| signed_value(value_or(vars, "RAG_N_THREADS"@, "4"@), -0x8000_0000, 0x7fff_ffff)
                is None
            ||| unsigned_value(value_or(vars, "RAG_N_CTX"@, "512"@), 0xffff_ffff) is None
            ||| unsigned_value(value_or(vars, "RAG_DIM"@, "512"@), max) is None
            ||| unsigned_value(value_or(vars, "RAG_BIT_WIDTH"@, "4"@), max) is None
            ||| unsigned_value(value_or(vars, "RAG_MAX_CHUNK_CHARS"@, "260"@), max) is None
            ||| unsigned_value(value_or(vars, "RAG_OVERLAP_CHARS"@, "50"@), max) is None
            ||| unsigned_value(value_or(vars, "RAG_LRU_CAPACITY"@, "1024"@), max) is None
            ||| raw != "true"@ && raw != "false"@
        },
{
    reveal_strlit("true");
    reveal_strlit("false");
    assert("true"@.len() != "false"@.len());
}

proof fn lemma_short_number(s: Seq<char>)
    requires
        0 < s.len() <= 4,
    ensures
        s.len() == 1 ==> digits_value(s) == (s[0] as u32 - 48) as nat,
        s.len() == 2 ==> digits_value(s) == (s[0] as u32 - 48) as nat * 10 + (s[1] as u32
            - 48) as nat,
        s.len() == 3 ==> digits_value(s) == ((s[0] as u32 - 48) as nat * 10 + (s[1] as u32
            - 48) as nat) * 10 + (s[2] as u32 - 48) as nat,
        s.len() == 4 ==> digits_value(s) == (((s[0] as u32 - 48) as nat * 10 + (s[1] as u32
            - 48) as nat) * 10 + (s[2] as u32 - 48) as nat) * 10 + (s[3] as u32 - 48) as nat,
    decreases s.len(),
{
    let most = s.drop_last();
    if s.len() == 1 {
        assert(most =~= Seq::empty());
        assert(digits_value(most) == 0);
    } else {
        lemma_short_number(most);
    }
}

/// Where no variable is set, the service listens on port 3000 of this machine, runs 4 threads on
/// contexts of 512 tokens, files vectors of 512 coordinates at 4 bits each, cuts texts into
/// chunks of 260 characters that share 50, keeps exact vectors and remembers 1024 queries.
pub proof fn law_defaults(vars: Seq<(Seq<char>, Seq<char>)>)
    requires
        forall|k: int|
            0 <= k < vars.len() ==> {
                let n = (#[trigger] vars[k]).0;
                &&& n != "RAG_MODEL_PATH"@ && n != "RAG_DATA_DIR"@ && n != "RAG_HOST"@
                &&& n != "RAG_PORT"@ && n != "RAG_N_THREADS"@ && n != "RAG_N_CTX"@
                &&& n != "RAG_DIM"@ && n != "RAG_BIT_WIDTH"@ && n != "RAG_MAX_CHUNK_CHARS"@
                &&& n != "RAG_OVERLAP_CHARS"@ && n != "RAG_STORE_RAW_VECTORS"@
                &&& n != "RAG_LRU_CAPACITY"@
            },
    ensures
        config_of(vars) matches Ok(c) && c.port == 3000 && c.n_threads == 4 && c.n_ctx == 512
            && c.dim == 512 && c.bit_width == 4 && c.max_chunk_chars == 260 && c.overlap_chars == 50
            && c.store_raw_vectors && c.lru_capacity == 1024 && c.host == "127.0.0.1"@
            && c.data_dir == "data"@ && c.model_path == "models/bge-small-zh-v1.5-q8_0.gguf"@,
{
    let n = vars.len() as int;
    law_first_variable_counts(
        vars,
        "RAG_MODEL_PATH"@,
        "models/bge-small-zh-v1.5-q8_0.gguf"@,
        n,
    );
    law_first_variable_counts(vars, "RAG_DATA_DIR"@, "data"@, n);
    law_first_variable_counts(vars, "RAG_HOST"@, "127.0.0.1"@, n);
    law_first_variable_counts(vars, "RAG_PORT"@, "3000"@, n);
    law_first_variable_counts(vars, "RAG_N_THREADS"@, "4"@, n);
    law_first_variable_counts(vars, "RAG_N_CTX"@, "512"@, n);
    law_first_variable_counts(vars, "RAG_DIM"@, "512"@, n);
    law_first_variable_counts(vars, "RAG_BIT_WIDTH"@, "4"@, n);
    law_first_variable_counts(vars, "RAG_MAX_CHUNK_CHARS"@, "260"@, n);
    law_first_variable_counts(vars, "RAG_OVERLAP_CHARS"@, "50"@, n);
    law_first_variable_counts(vars, "RAG_STORE_RAW_VECTORS"@, "true"@, n);
    law_first_variable_counts(vars, "RAG_LRU_CAPACITY"@, "1024"@, n);
    reveal_strlit("3000");
    reveal_strlit("4");
    reveal_strlit("512");
    reveal_strlit("260");
    reveal_strlit("50");
    reveal_strlit("1024");
    lemma_short_number("3000"@);
    lemma_short_number("4"@);
    lemma_short_number("512"@);
    lemma_short_number("260"@);
    lemma_short_number("50"@);
    lemma_short_number("1024"@);
    assert(is_digits("3000"@) && is_digits("4"@) && is_digits("512"@) && is_digits("260"@)
        && is_digits("50"@) && is_digits("1024"@));
}

/// The configuration is seen as it is, and so are the variables.
pub proof fn law_config_seen(c: Config, vars: Seq<(String, String)>, i: int)
    ensures
        c@.model_path == c.model_path@ && c@.data_dir == c.data_dir@ && c@.host == c.host@,
        c@.port == c.port && c@.n_threads == c.n_threads && c@.n_ctx == c.n_ctx,
        c@.dim == c.dim && c@.bit_width == c.bit_width,
        c@.max_chunk_chars == c.max_chunk_chars && c@.overlap_chars == c.overlap_chars,
        c@.store_raw_vectors == c.store_raw_vectors && c@.lru_capacity == c.lru_capacity,
        texts(vars).len() == vars.len(),
        0 <= i < vars.len() ==> texts(vars)[i] == (vars[i].0@, vars[i].1@),
{
}

} // verus!
