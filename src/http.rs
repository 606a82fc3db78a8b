use vstd::prelude::*;

verus! {

/// How requests authenticate.
pub enum Credentials {
    Bearer(String),
    UsernamePassword(String, String),
}

pub struct HttpClientConfig {
    pub host: String,
    pub base_url: String,
    pub credentials: Credentials,
}

impl HttpClientConfig {
    /// A configuration whose base URL is `https://<host>/<base_path>`.
    pub fn new(host: &str, base_path: &str, credentials: Credentials) -> (r: Self)
        ensures
            r.host@ == host@,
            r.base_url@ == "https://"@ + host@ + "/"@ + base_path@,
            r.credentials == credentials,
    {
        let mut base_url = String::from_str("https://");
        base_url.append(host);
        base_url.append("/");
        base_url.append(base_path);
        HttpClientConfig { host: String::from_str(host), base_url, credentials }
    }
}

} // verus!
