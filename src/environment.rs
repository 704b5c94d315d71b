use vstd::prelude::*;
use vstd::string::StringExecFns;

verus! {

/// The agent's configuration.
pub struct Environment {
    pub storage_directory: String,
    pub encryption_key: String,
    pub database_url: String,
    pub database_name: String,
    pub database_collection: String,
}

/// The document-store connection URL for the given credentials and address.
pub open spec fn connection_url(
    user: Seq<char>,
    password: Seq<char>,
    host: Seq<char>,
    port: Seq<char>,
    database: Seq<char>,
) -> Seq<char> {
    "mongodb://"@ + user + ":"@ + password + "@"@ + host + ":"@ + port + "/"@ + database
        + "?authSource=admin"@
}

impl Environment {
    /// The configuration built from its settings; the connection URL is
    /// assembled from the credentials, the address and the database name.
    pub fn new(
        storage_directory: String,
        encryption_key: String,
        database_user: &str,
        database_password: &str,
        database_host: &str,
        database_port: &str,
        database_name: String,
        database_collection: String,
    ) -> (r: Environment)
        ensures
            r.storage_directory == storage_directory,
            r.encryption_key == encryption_key,
            r.database_name == database_name,
            r.database_collection == database_collection,
            r.database_url@ == connection_url(
                database_user@,
                database_password@,
                database_host@,
                database_port@,
                database_name@,
            ),
    {
        proof {
            reveal_strlit("mongodb://");
            reveal_strlit(":");
            reveal_strlit("@");
            reveal_strlit("/");
            reveal_strlit("?authSource=admin");
        }
        let mut database_url = String::from_str("mongodb://");
        database_url.append(database_user);
        database_url.append(":");
        database_url.append(database_password);
        database_url.append("@");
        database_url.append(database_host);
        database_url.append(":");
        database_url.append(database_port);
        database_url.append("/");
        database_url.append(database_name.as_str());
        database_url.append("?authSource=admin");
        Environment {
            storage_directory,
            encryption_key,
            database_url,
            database_name,
            database_collection,
        }
    }
}

} // verus!
