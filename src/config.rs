//! The settings each role starts from: where to connect or listen, which
//! file to send or where to save it, and how large a chunk is.
use vstd::prelude::*;

verus! {

/// One mebibyte.
pub const MB: u64 = 1024 * 1024;

/// Settings of the sending side.
pub struct ServerConfig {
    ip: String,
    file_path: String,
    chunk_size: u64,
}

impl ServerConfig {
    /// The socket address to listen on, as text (`host:port`).
    pub closed spec fn spec_ip(&self) -> Seq<char> {
        self.ip@
    }

    /// The file to send.
    pub closed spec fn spec_file_path(&self) -> Seq<char> {
        self.file_path@
    }

    /// The size of each chunk, in bytes.
    pub closed spec fn spec_chunk_size(&self) -> u64 {
        self.chunk_size
    }

    pub fn new(ip: String, file_path: String, chunk_size: u64) -> (r: ServerConfig)
        ensures
            r.spec_ip() == ip@,
            r.spec_file_path() == file_path@,
            r.spec_chunk_size() == chunk_size,
    {
        ServerConfig { ip, file_path, chunk_size }
    }

    pub fn file_path(&self) -> (r: &String)
        ensures
            r@ == self.spec_file_path(),
    {
        &self.file_path
    }

    pub fn chunk_size(&self) -> (r: u64)
        ensures
            r == self.spec_chunk_size(),
    {
        self.chunk_size
    }

    pub fn ip(&self) -> (r: &String)
        ensures
            r@ == self.spec_ip(),
    {
        &self.ip
    }
}

impl Default for ServerConfig {
    /// Listens on `127.0.0.1:3000`, sends the file `test`, one mebibyte at a
    /// time.
    fn default() -> (r: ServerConfig)
        ensures
            r.spec_ip() == "127.0.0.1:3000"@,
            r.spec_file_path() == "test"@,
            r.spec_chunk_size() == MB,
    {
        ServerConfig { ip: "127.0.0.1:3000".to_owned(), file_path: "test".to_owned(), chunk_size: MB }
    }
}

/// Settings of the receiving side.
pub struct ClientConfig {
    ip: String,
    save_path: String,
}

impl ClientConfig {
    /// The socket address to connect to, as text (`host:port`).
    pub closed spec fn spec_ip(&self) -> Seq<char> {
        self.ip@
    }

    /// Where the received file is created.
    pub closed spec fn spec_save_path(&self) -> Seq<char> {
        self.save_path@
    }

    pub fn new(ip: String, save_path: String) -> (r: ClientConfig)
        ensures
            r.spec_ip() == ip@,
            r.spec_save_path() == save_path@,
    {
        ClientConfig { ip, save_path }
    }

    pub fn save_path(&self) -> (r: &String)
        ensures
            r@ == self.spec_save_path(),
    {
        &self.save_path
    }

    pub fn ip(&self) -> (r: &String)
        ensures
            r@ == self.spec_ip(),
    {
        &self.ip
    }
}

impl Default for ClientConfig {
    /// Connects to `127.0.0.1:3000` and saves to `./recieve`.
    fn default() -> (r: ClientConfig)
        ensures
            r.spec_ip() == "127.0.0.1:3000"@,
            r.spec_save_path() == "./recieve"@,
    {
        ClientConfig { ip: "127.0.0.1:3000".to_owned(), save_path: "./recieve".to_owned() }
    }
}

} // verus!
