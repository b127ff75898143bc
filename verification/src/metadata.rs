//! The metadata that ECS leaves in a file for each container, and how often that
//! file is read.

use vstd::prelude::*;
use crate::text::same_text;

verus! {

/// An IPv4 or IPv6 address, as the number that its octets make.
#[derive(Clone, Copy, PartialEq, Eq, Structural, Debug)]
pub enum IpAddress {
    V4(u32),
    V6(u128),
}

/// What a container is told of itself, found in the file that
/// `$ECS_CONTAINER_METADATA_FILE` names.
#[derive(Clone, Debug)]
pub struct ContainerMetadata {
    /// The name of the cluster that the container's task is running on.
    pub cluster: String,
    /// The full resource name of the host container instance.
    pub cluster_instance_arn: String,
    /// The full resource name of the task that the container belongs to.
    pub tark_arn: String,
    /// The name of the task definition family the container is using.
    pub task_definition_family: String,
    /// The task definition revision the container is using.
    pub task_definition_revision: usize,
    /// The Docker container ID (and not the Amazon ECS container ID).
    pub container_id: String,
    /// The container name from the task definition.
    pub container_name: String,
    /// When the container was created.
    pub created_at: String,
    /// When the container was started.
    pub started_at: String,
    /// The container name that the Docker daemon uses.
    pub docker_container_name: String,
    /// The SHA digest of the Docker image.
    pub image_id: String,
    /// The name and tag of the Docker image.
    pub image_name: String,
    /// The port mappings of the container.
    pub port_mappings: Vec<PortMapping>,
    /// The network mode and IP addresses of the container.
    pub networks: Vec<Network>,
    /// Always `READY` in metadata that a reading returns, as it waits until all
    /// information is there.
    pub metadata_file_status: String,
    /// The availability zone of the host container instance.
    pub availability_zone: String,
    /// The private IP address of the task.
    pub host_private_ipv4_address: u32,
    /// The public IP address of the task.
    pub host_public_ipv4_address: u32,
}

/// A port of the container that is reachable on its host.
#[derive(Clone, Debug)]
pub struct PortMapping {
    /// The port on the container that is exposed.
    pub container_port: u16,
    /// The port on the host container instance that is exposed.
    pub host_port: u16,
    /// The address that Docker binds, in the bridge network mode.
    pub bind_ip: IpAddress,
    /// The network protocol of the mapping.
    pub protocol: String,
}

/// The network configuration of the task definition.
#[derive(Clone, Debug)]
pub struct Network {
    /// The network mode of the task.
    pub network_mode: String,
    /// The addresses of the container; none in the awsvpc network mode.
    pub ipv4_addresses: Vec<u32>,
}

/// Why there is no metadata.
#[derive(Debug)]
pub enum MetadataError {
    /// No file was named.
    Missing,
    /// The file could not be read.
    Unreadable(String),
    /// The file never held complete metadata.
    Malformed,
}

impl MetadataError {
    /// The error as it is shown to people.
    pub open spec fn text(self) -> Seq<char> {
        match self {
            MetadataError::Missing => "No metadata file present"@,
            MetadataError::Unreadable(text) => text@,
            MetadataError::Malformed => "Malformed metadata file present"@,
        }
    }

    /// The error as it is shown to people.
    pub fn message(&self) -> (text: String)
        ensures
            text@ == self.text(),
    {
        match self {
            MetadataError::Missing => String::from_str("No metadata file present"),
            MetadataError::Unreadable(text) => text.clone(),
            MetadataError::Malformed => String::from_str("Malformed metadata file present"),
        }
    }
}

/// How often the file is read at most.
pub const MAX_ATTEMPTS: u64 = 3;

/// How many milliseconds are waited before each attempt.
pub const WAIT_MILLIS: u64 = 500;

/// An attempt that is to be made: wait, then read the file.
#[derive(Debug)]
pub struct MetadataAttempt {
    path: String,
    failed: u64,
}

/// What is to be done to get the metadata.
pub enum MetadataStep {
    Attempt(MetadataAttempt),
    Done(Result<ContainerMetadata, MetadataError>),
}

/// What an attempt found.
pub enum FileContent {
    /// The file could not be read, for this reason.
    Unreadable(String),
    /// The file holds something that is no metadata.
    Incomplete,
    /// The file holds metadata, which are complete once their status is `READY`.
    Complete(ContainerMetadata),
}

impl MetadataStep {
    /// Begins with the file's path, if there is one.
    pub fn begin(path: Option<String>) -> (step: MetadataStep)
        ensures
            match path {
                Some(path) => step matches MetadataStep::Attempt(attempt) && attempt.wf()
                    && attempt.path() == path@ && attempt.failed() == 0,
                None => step == MetadataStep::Done(Err(MetadataError::Missing)),
            },
    {
        match path {
            Some(path) => MetadataStep::Attempt(MetadataAttempt { path, failed: 0 }),
            None => MetadataStep::Done(Err(MetadataError::Missing)),
        }
    }
}

impl MetadataAttempt {
    /// The path of the file.
    pub closed spec fn path(&self) -> Seq<char> {
        self.path@
    }

    /// How many attempts have failed.
    pub closed spec fn failed(&self) -> nat {
        self.failed as nat
    }

    /// Not all attempts have failed.
    pub open spec fn wf(&self) -> bool {
        self.failed() < MAX_ATTEMPTS
    }

    /// The path of the file to read.
    pub fn file(&self) -> (path: &String)
        ensures
            path@ == self.path(),
    {
        &self.path
    }

    /// Goes on with what the attempt found. Only what is not ready leads to another
    /// attempt, as long as attempts are left.
    pub fn next(self, content: FileContent) -> (step: MetadataStep)
        requires
            self.wf(),
        ensures
            follows(MetadataStep::Attempt(self), content, step),
            step matches MetadataStep::Attempt(attempt) ==> attempt.wf(),
            step matches MetadataStep::Done(Ok(metadata)) ==> metadata.metadata_file_status@
                == "READY"@,
    {
        match content {
            FileContent::Unreadable(text) => MetadataStep::Done(
                Err(MetadataError::Unreadable(text)),
            ),
            FileContent::Incomplete => self.again(),
            FileContent::Complete(metadata) => {
                if same_text(metadata.metadata_file_status.as_str(), "READY") {
                    MetadataStep::Done(Ok(metadata))
                } else {
                    self.again()
                }
            },
        }
    }

    /// Counts the attempt as failed.
    fn again(self) -> (step: MetadataStep)
        requires
            self.wf(),
        ensures
            is_retry(self, step),
            step matches MetadataStep::Attempt(attempt) ==> attempt.wf(),
    {
        let failed = self.failed + 1;
        if failed < MAX_ATTEMPTS {
            MetadataStep::Attempt(MetadataAttempt { path: self.path, failed })
        } else {
            MetadataStep::Done(Err(MetadataError::Malformed))
        }
    }
}

/// The file holds metadata with all information.
pub open spec fn is_ready(content: FileContent) -> bool {
    content matches FileContent::Complete(metadata) && metadata.metadata_file_status@ == "READY"@
}

/// `after` is the step that a failed attempt leads to.
pub open spec fn is_retry(attempt: MetadataAttempt, after: MetadataStep) -> bool {
    if attempt.failed() + 1 < MAX_ATTEMPTS {
        after matches MetadataStep::Attempt(other) && other.path() == attempt.path()
            && other.failed() == attempt.failed() + 1
    } else {
        after == MetadataStep::Done(Err(MetadataError::Malformed))
    }
}

/// `steps` follow each other where every attempt finds the content at its place.
pub open spec fn is_reading(steps: Seq<MetadataStep>, contents: Seq<FileContent>) -> bool {
    &&& steps.len() == contents.len() + 1
    &&& steps[0] matches MetadataStep::Attempt(attempt) && attempt.failed() == 0
    &&& forall|i: int|
        0 <= i < contents.len() ==> follows(#[trigger] steps[i], contents[i], steps[i + 1])
}

/// `after` is the step that an attempt leads to with this content.
pub open spec fn follows(step: MetadataStep, content: FileContent, after: MetadataStep) -> bool {
    step matches MetadataStep::Attempt(attempt) && match content {
        FileContent::Unreadable(text) => after == MetadataStep::Done(
            Err(MetadataError::Unreadable(text)),
        ),
        FileContent::Incomplete => is_retry(attempt, after),
        FileContent::Complete(metadata) => if is_ready(content) {
            after == MetadataStep::Done(Ok(metadata))
        } else {
            is_retry(attempt, after)
        },
    }
}

/// The metadata that a reading returns are those that its last attempt found, and
/// they are ready.
pub proof fn law_only_ready_metadata(steps: Seq<MetadataStep>, contents: Seq<FileContent>)
    requires
        is_reading(steps, contents),
    ensures
        steps.last() matches MetadataStep::Done(Ok(metadata)) ==> {
            &&& contents.last() == FileContent::Complete(metadata)
            &&& metadata.metadata_file_status@ == "READY"@
        },
{
    if contents.len() > 0 {
        let i = contents.len() - 1;
        assert(follows(steps[i], contents[i], steps[i + 1]));
    }
}

/// The file is read at most three times, with at most one and a half seconds of
/// waiting. Where the third reading finds none that are ready, that is the end.
pub proof fn law_attempts_are_limited(steps: Seq<MetadataStep>, contents: Seq<FileContent>)
    requires
        is_reading(steps, contents),
    ensures
        contents.len() <= MAX_ATTEMPTS,
        contents.len() * WAIT_MILLIS <= 1500,
        contents.len() == MAX_ATTEMPTS && contents.last() !is Unreadable && !is_ready(
            contents.last(),
        ) ==> steps.last() == MetadataStep::Done(Err(MetadataError::Malformed)),
{
    if contents.len() > 0 {
        assert(follows(steps[0], contents[0], steps[1]));
    }
    if contents.len() > 1 {
        assert(follows(steps[1], contents[1], steps[2]));
    }
    if contents.len() > 2 {
        assert(follows(steps[2], contents[2], steps[3]));
    }
    if contents.len() > 3 {
        assert(follows(steps[3], contents[3], steps[4]));
    }
}

/// With a file to read, the first attempt is made on that file, and without one there
/// is no metadata.
pub proof fn law_begin(path: Option<String>, step: MetadataStep)
    requires
        call_ensures(MetadataStep::begin, (path,), step),
    ensures
        path is None ==> step == MetadataStep::Done(Err(MetadataError::Missing)),
        path matches Some(path) ==> (step matches MetadataStep::Attempt(attempt) && attempt.path()
            == path@ && attempt.failed() == 0),
{
}

/// Each attempt goes on by what it found: metadata that are ready end the reading,
/// whichever attempt found them, and so does a file that cannot be read. All else is
/// a failed attempt: the same file is read again until three attempts have failed.
pub proof fn law_next(attempt: MetadataAttempt, content: FileContent, step: MetadataStep)
    requires
        attempt.wf(),
        call_ensures(MetadataAttempt::next, (attempt, content), step),
    ensures
        match content {
            FileContent::Complete(metadata) => metadata.metadata_file_status@ == "READY"@ ==> step
                == MetadataStep::Done(Ok(metadata)),
            FileContent::Unreadable(text) => step == MetadataStep::Done(
                Err(MetadataError::Unreadable(text)),
            ),
            FileContent::Incomplete => true,
        },
        (content is Incomplete || (content matches FileContent::Complete(metadata)
            && metadata.metadata_file_status@ != "READY"@)) ==> {
            &&& attempt.failed() < 2 ==> (step matches MetadataStep::Attempt(other) && other.path()
                == attempt.path() && other.failed() == attempt.failed() + 1)
            &&& attempt.failed() >= 2 ==> step == MetadataStep::Done(
                Err(MetadataError::Malformed),
            )
        },
{
}

/// Ready metadata are always returned: a reading whose last attempt, be it the first,
/// the second or the third, finds metadata that are ready returns exactly these.
pub proof fn law_ready_metadata_are_returned(
    steps: Seq<MetadataStep>,
    contents: Seq<FileContent>,
    metadata: ContainerMetadata,
)
    requires
        is_reading(steps, contents),
        contents.len() > 0,
        contents.last() == FileContent::Complete(metadata),
        metadata.metadata_file_status@ == "READY"@,
    ensures
        steps.last() == MetadataStep::Done(Ok(metadata)),
{
    let i = contents.len() - 1;
    assert(follows(steps[i], contents[i], steps[i + 1]));
}

/// What a reading ends with: its outcome is malformed only after three attempts that
/// found no ready metadata, and unreadable only where the last attempt could not read
/// the file. Every attempt before the last found neither.
pub proof fn law_how_a_reading_ends(
    steps: Seq<MetadataStep>,
    contents: Seq<FileContent>,
    i: int,
)
    requires
        is_reading(steps, contents),
        0 <= i < contents.len(),
    ensures
        steps[i] matches MetadataStep::Attempt(attempt) && attempt.failed() == i,
        i + 1 < contents.len() ==> contents[i] !is Unreadable && (
        contents[i] matches FileContent::Complete(metadata) ==> metadata.metadata_file_status@
            != "READY"@),
        steps.last() == MetadataStep::Done(Err(MetadataError::Malformed)) ==> contents.len() == 3
            && contents[i] !is Unreadable && (contents[i] matches FileContent::Complete(metadata)
            ==> metadata.metadata_file_status@ != "READY"@),
        steps.last() matches MetadataStep::Done(Err(MetadataError::Unreadable(text)))
            ==> contents.last() == FileContent::Unreadable(text),
        contents.last() matches FileContent::Unreadable(text) ==> steps.last()
            == MetadataStep::Done(Err(MetadataError::Unreadable(text))),
        steps.last() is Attempt ==> contents.len() < 3,
        steps.last() != MetadataStep::Done(Err(MetadataError::Missing)),
    decreases i,
{
    let n = contents.len() - 1;
    if i > 0 {
        law_how_a_reading_ends(steps, contents, i - 1);
        assert(follows(steps[i - 1], contents[i - 1], steps[i - 1 + 1]));
    }
    assert(follows(steps[i], contents[i], steps[i + 1]));
    if i < n {
        assert(follows(steps[i + 1], contents[i + 1], steps[i + 2]));
    }
    assert(follows(steps[n], contents[n], steps[n + 1]));
    lemma_failed_before(steps, contents, n);
}

/// Each attempt follows as many failed ones as there were before it.
proof fn lemma_failed_before(steps: Seq<MetadataStep>, contents: Seq<FileContent>, i: int)
    requires
        is_reading(steps, contents),
        0 <= i < contents.len(),
    ensures
        steps[i] matches MetadataStep::Attempt(attempt) && attempt.failed() == i,
    decreases i,
{
    if i > 0 {
        lemma_failed_before(steps, contents, i - 1);
        assert(follows(steps[i - 1], contents[i - 1], steps[i - 1 + 1]));
    }
    assert(follows(steps[i], contents[i], steps[i + 1]));
}

/// What people are shown of an error.
pub proof fn law_messages(error: MetadataError, text: String)
    requires
        call_ensures(MetadataError::message, (&error,), text),
    ensures
        match error {
            MetadataError::Missing => text@ == "No metadata file present"@,
            MetadataError::Unreadable(cause) => text@ == cause@,
            MetadataError::Malformed => text@ == "Malformed metadata file present"@,
        },
{
}

/// Every attempt reads the file that was named at the start.
pub proof fn law_file_is_read(
    path: String,
    step: MetadataStep,
    steps: Seq<MetadataStep>,
    contents: Seq<FileContent>,
    i: int,
    attempt: MetadataAttempt,
    file: String,
)
    requires
        call_ensures(MetadataStep::begin, (Some(path),), step),
        is_reading(steps, contents),
        steps[0] == step,
        0 <= i < steps.len(),
        steps[i] == MetadataStep::Attempt(attempt),
        call_ensures(MetadataAttempt::file, (&attempt,), &file),
    ensures
        file@ == path@,
{
    lemma_same_path(steps, contents, i);
}

proof fn lemma_same_path(steps: Seq<MetadataStep>, contents: Seq<FileContent>, i: int)
    requires
        is_reading(steps, contents),
        0 <= i < steps.len(),
    ensures
        steps[i] matches MetadataStep::Attempt(attempt) ==> (
        steps[0] matches MetadataStep::Attempt(first) && first.path() == attempt.path()),
    decreases i,
{
    if i > 0 {
        lemma_same_path(steps, contents, i - 1);
        assert(follows(steps[i - 1], contents[i - 1], steps[i - 1 + 1]));
    }
}

} // verus!
