//! Checking packages against the checksums that a remote service holds.
//!
//! The library decides what is asked and what an answer means. Whoever owns
//! the network fetches the addresses it hands out, all of a batch together,
//! and hands back what came of each, in the order in which they were asked.

use vstd::prelude::*;
use vstd::string::*;
use crate::packages::Packages;

verus! {

/// A verification that waits for the service's answer: the package, and the
/// version and checksum as they were when it was asked for.
pub struct VerificationRequest {
    pub package_name: String,
    pub version: String,
    pub md5sum: String,
}

/// A waiting verification as the contracts see it.
pub struct RequestView {
    pub package_name: Seq<char>,
    pub version: Seq<char>,
    pub md5sum: Seq<char>,
}

impl View for VerificationRequest {
    type V = RequestView;

    open spec fn view(&self) -> RequestView {
        RequestView { package_name: self.package_name@, version: self.version@, md5sum: self.md5sum@ }
    }
}

/// What came of fetching one address.
pub enum FetchOutcome {
    /// The service answered, with this status and body.
    Response { status: u32, body: String },
    /// No answer came: the service could not be reached.
    TransportFailure,
}

/// What a verification found.
#[derive(Clone, Copy, Debug, PartialEq, Eq, Structural)]
pub enum Verdict {
    /// The service holds the checksum that the catalog holds.
    Match,
    /// The service holds another checksum.
    Mismatch,
    /// The service answered with this status, which is not 200.
    HttpError(u32),
    /// The service could not be reached.
    TransportFailure,
}

/// The verdict on one package and version.
pub struct VerificationReport {
    pub package_name: String,
    pub version: String,
    pub verdict: Verdict,
}

/// Why a verification could not be asked for, or a batch not be closed.
#[derive(Clone, Copy, Debug, PartialEq, Eq, Structural)]
pub enum VerifyError {
    /// The catalog holds no available version of the package.
    PackageNotDefined,
    /// The catalog holds no checksum of the package.
    NoChecksum,
    /// There are not as many outcomes as verifications waiting.
    OutcomeCount,
}

/// The state of one batch of verifications: the service asked, and the
/// verifications that wait, first asked first.
pub struct AsyncState {
    pub(crate) server: String,
    pub(crate) pending: Vec<VerificationRequest>,
}

/// The state of a batch as the contracts see it.
pub struct AsyncStateView {
    pub server: Seq<char>,
    pub pending: Seq<RequestView>,
}

impl View for AsyncState {
    type V = AsyncStateView;

    open(crate) spec fn view(&self) -> AsyncStateView {
        AsyncStateView {
            server: self.server@,
            pending: Seq::new(self.pending.len() as nat, |i: int| self.pending[i]@),
        }
    }
}

/// The service that is asked unless another is set.
pub open spec fn default_server() -> Seq<char> {
    "ece459.patricklam.ca:4590"@
}

/// The hexadecimal digit, in upper case, of a number below sixteen.
pub open spec fn hex_digit(half: int) -> char {
    if half < 10 {
        ('0' as u8 + half) as char
    } else {
        ('A' as u8 + half - 10) as char
    }
}

/// Whether a byte stands for itself in an address: letters, digits, `-`, `.`, `_`, `~`.
pub open spec fn is_unreserved(byte: u8) -> bool {
    ||| '0' as u8 <= byte <= '9' as u8
    ||| 'A' as u8 <= byte <= 'Z' as u8
    ||| 'a' as u8 <= byte <= 'z' as u8
    ||| byte == '-' as u8
    ||| byte == '.' as u8
    ||| byte == '_' as u8
    ||| byte == '~' as u8
}

/// A byte as it stands in an address: itself, or `%` and its two hexadecimal digits.
pub open spec fn percent_encoded_byte(byte: u8) -> Seq<char> {
    if is_unreserved(byte) {
        seq![byte as char]
    } else {
        seq!['%', hex_digit(byte as int / 16), hex_digit(byte as int % 16)]
    }
}

/// Bytes as they stand in an address.
pub open spec fn percent_encoded_bytes(bytes: Seq<u8>) -> Seq<char>
    decreases bytes.len(),
{
    if bytes.len() == 0 {
        Seq::empty()
    } else {
        percent_encoded_bytes(bytes.drop_last()) + percent_encoded_byte(bytes.last())
    }
}

/// A text as it stands in an address: the bytes of its UTF-8 form, each encoded.
pub open spec fn percent_encoded(text: Seq<char>) -> Seq<char> {
    percent_encoded_bytes(vstd::utf8::encode_utf8(text))
}

/// The address at which `server` answers for a package and version.
pub open spec fn request_url(server: Seq<char>, package_name: Seq<char>, version: Seq<char>) -> Seq<
    char,
> {
    "http://"@ + server + "/rest/v1/checksums/"@ + percent_encoded(package_name) + "/"@
        + percent_encoded(version)
}

/// What an outcome means for a verification that expects `md5sum`.
pub open spec fn verdict_of(md5sum: Seq<char>, outcome: FetchOutcome) -> Verdict {
    match outcome {
        FetchOutcome::Response { status, body } => if status == 200 {
            if body@ == md5sum {
                Verdict::Match
            } else {
                Verdict::Mismatch
            }
        } else {
            Verdict::HttpError(status)
        },
        FetchOutcome::TransportFailure => Verdict::TransportFailure,
    }
}

/// Whether `report` is what `outcome` means for `request`.
pub open spec fn reports(report: VerificationReport, request: RequestView, outcome: FetchOutcome) -> bool {
    &&& report.package_name@ == request.package_name
    &&& report.version@ == request.version
    &&& report.verdict == verdict_of(request.md5sum, outcome)
}

/// Encodes a text with `urlencoding::encode`, whose documentation says that it
/// percent-encodes every byte of the text's UTF-8 form but letters, digits,
/// `-`, `_`, `.` and `~`; its source writes the two digits in upper case.
#[verifier::external_body]
fn percent_encode(text: &str) -> (r: String)
    ensures
        r@ == percent_encoded(text@),
{
    urlencoding::encode(text).into_owned()
}

/// The verdict that an outcome means for a verification that expects `md5sum`.
pub fn judge(md5sum: &str, outcome: &FetchOutcome) -> (r: Verdict)
    ensures
        r == verdict_of(md5sum@, *outcome),
{
    match outcome {
        FetchOutcome::Response { status, body } => {
            if *status == 200 {
                let expected = String::from_str(md5sum);
                if *body == expected {
                    Verdict::Match
                } else {
                    Verdict::Mismatch
                }
            } else {
                Verdict::HttpError(*status)
            }
        },
        FetchOutcome::TransportFailure => Verdict::TransportFailure,
    }
}

/// The address at which `server` answers for a package and version.
pub fn build_request_url(server: &str, package_name: &str, version: &str) -> (r: String)
    ensures
        r@ == request_url(server@, package_name@, version@),
{
    let mut url = String::from_str("http://");
    url.append(server);
    url.append("/rest/v1/checksums/");
    let name = percent_encode(package_name);
    url.append(name.as_str());
    url.append("/");
    let version = percent_encode(version);
    url.append(version.as_str());
    url
}

impl AsyncState {
    /// A batch with nothing waiting, that asks the default service.
    pub fn new() -> (r: AsyncState)
        ensures
            r@.server == default_server(),
            r@.pending.len() == 0,
    {
        AsyncState { server: String::from_str("ece459.patricklam.ca:4590"), pending: Vec::new() }
    }
}

impl Packages {
    /// Sets the service that later verifications ask.
    pub fn set_server(&mut self, new_server: &str)
        ensures
            final(self).engine().server == new_server@,
            final(self).engine().pending == old(self).engine().pending,
            final(self)@ == old(self)@,
    {
        self.async_state.server = String::from_str(new_server);
    }

    /// Asks for a verification of `pkg` in the version that the catalog holds as available.
    pub fn enq_verify(&mut self, pkg: &str) -> (r: Result<String, VerifyError>)
        requires
            old(self).wf(),
        ensures
            final(self)@ == old(self)@,
            final(self).engine().server == old(self).engine().server,
            match (old(self)@.available_of(pkg@), old(self)@.md5sum_of(pkg@)) {
                (Some(version), Some(md5sum)) => {
                    &&& r matches Ok(url)
                    &&& url@ == request_url(old(self).engine().server, pkg@, version.text)
                    &&& final(self).engine().pending == old(self).engine().pending.push(
                        RequestView { package_name: pkg@, version: version.text, md5sum },
                    )
                },
                (Some(_), None) => {
                    &&& r == Err::<String, VerifyError>(VerifyError::NoChecksum)
                    &&& final(self).engine().pending == old(self).engine().pending
                },
                (None, _) => {
                    &&& r == Err::<String, VerifyError>(VerifyError::PackageNotDefined)
                    &&& final(self).engine().pending == old(self).engine().pending
                },
            },
    {
        let version = match self.get_available_debver(pkg) {
            Some(v) => String::from_str(v.as_str()),
            None => {
                return Err(VerifyError::PackageNotDefined);
            },
        };
        self.enq_verify_with_version(pkg, version.as_str())
    }

    /// Asks for a verification of `pkg` in `version`, against the checksum that
    /// the catalog holds now. It hands out the address to fetch. Nothing is
    /// fetched yet.
    pub fn enq_verify_with_version(&mut self, pkg: &str, version: &str) -> (r: Result<
        String,
        VerifyError,
    >)
        requires
            old(self).wf(),
        ensures
            final(self)@ == old(self)@,
            final(self).engine().server == old(self).engine().server,
            match old(self)@.md5sum_of(pkg@) {
                Some(md5sum) => {
                    &&& r matches Ok(url)
                    &&& url@ == request_url(old(self).engine().server, pkg@, version@)
                    &&& final(self).engine().pending == old(self).engine().pending.push(
                        RequestView { package_name: pkg@, version: version@, md5sum },
                    )
                },
                None => {
                    &&& r == Err::<String, VerifyError>(VerifyError::NoChecksum)
                    &&& final(self).engine().pending == old(self).engine().pending
                },
            },
    {
        let md5sum = match self.get_md5sum(pkg) {
            Some(m) => String::from_str(m),
            None => {
                return Err(VerifyError::NoChecksum);
            },
        };
        let url = build_request_url(self.async_state.server.as_str(), pkg, version);
        let request = VerificationRequest {
            package_name: String::from_str(pkg),
            version: String::from_str(version),
            md5sum,
        };
        self.async_state.pending.push(request);
        assert(self.engine().pending =~= old(self).engine().pending.push(request@));
        Ok(url)
    }

    /// Closes the batch: says what each outcome means for the verification
    /// that waited for it, first asked first, and leaves nothing waiting.
    /// `outcomes` holds one outcome for each verification that waits, in the
    /// order in which they were asked.
    pub fn execute(&mut self, outcomes: &Vec<FetchOutcome>) -> (r: Result<
        Vec<VerificationReport>,
        VerifyError,
    >)
        ensures
            final(self)@ == old(self)@,
            final(self).engine().server == old(self).engine().server,
            outcomes.len() == old(self).engine().pending.len() ==> {
                &&& r matches Ok(verdicts)
                &&& final(self).engine().pending.len() == 0
                &&& verdicts.len() == outcomes.len()
                &&& forall|i: int|
                    0 <= i < verdicts.len() ==> reports(
                        #[trigger] verdicts[i],
                        old(self).engine().pending[i],
                        outcomes[i],
                    )
            },
            outcomes.len() != old(self).engine().pending.len() ==> {
                &&& r matches Err(e)
                &&& e == VerifyError::OutcomeCount
                &&& final(self).engine().pending == old(self).engine().pending
            },
    {
        let n = self.async_state.pending.len();
        if outcomes.len() != n {
            return Err(VerifyError::OutcomeCount);
        }
        let mut verdicts: Vec<VerificationReport> = Vec::new();
        let mut i: usize = 0;
        while i < n
            invariant
                *self == *old(self),
                n == self.async_state.pending.len(),
                n == outcomes.len(),
                i <= n,
                verdicts.len() == i,
                forall|j: int|
                    0 <= j < i ==> reports(
                        #[trigger] verdicts[j],
                        self.engine().pending[j],
                        outcomes[j],
                    ),
            decreases n - i,
        {
            let request = &self.async_state.pending[i];
            let verdict = judge(request.md5sum.as_str(), &outcomes[i]);
            verdicts.push(
                VerificationReport {
                    package_name: request.package_name.clone(),
                    version: request.version.clone(),
                    verdict,
                },
            );
            i += 1;
        }
        self.async_state.pending = Vec::new();
        Ok(verdicts)
    }

    /// The service that verifications ask.
    pub fn server(&self) -> (r: &str)
        ensures
            r@ == self.engine().server,
    {
        self.async_state.server.as_str()
    }

    /// How many verifications wait.
    pub fn pending_len(&self) -> (r: usize)
        ensures
            r == self.engine().pending.len(),
    {
        self.async_state.pending.len()
    }
}

} // verus!
